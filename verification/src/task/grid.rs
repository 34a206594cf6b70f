//! The comfy_table calls that render the table format.
use comfy_table::Table;
use vstd::prelude::*;

verus! {

#[verifier::external_type_specification]
#[verifier::external_body]
pub struct ExTable(Table);

/// The header row of a table, as the text of its cells (`None` until set).
pub uninterp spec fn table_header(t: Table) -> Option<Seq<Seq<char>>>;

/// The body rows of a table in the order they were added, each as the text
/// of its cells.
pub uninterp spec fn table_rows(t: Table) -> Seq<Seq<Seq<char>>>;

/// The border characters of a table, as the preset string that
/// `Table::current_style_as_preset` would give.
pub uninterp spec fn table_style(t: Table) -> Seq<char>;

/// Whether a table is as `Table::new` made it but for its style, header and
/// rows: no content arrangement, width, column constraint or cell styling.
pub uninterp spec fn table_is_plain(t: Table) -> bool;

/// The text that comfy_table's `Display` gives for a plain table with this
/// style, header and rows.
pub uninterp spec fn rendered_table(
    style: Seq<char>,
    header: Option<Seq<Seq<char>>>,
    rows: Seq<Seq<Seq<char>>>,
) -> Seq<char>;

/// The cells of a row, as text.
pub open spec fn cell_texts(cells: Seq<String>) -> Seq<Seq<char>> {
    cells.map_values(|c: String| c@)
}

/// comfy_table's `UTF8_FULL` preset.
pub open spec fn utf8_full() -> Seq<char> {
    "││──╞═╪╡┆╌┼├┤┬┴┌┐└┘"@
}

/// `Table::new`: a plain table with no header and no rows.
#[verifier::external_body]
pub(crate) fn new_table() -> (t: Table)
    ensures
        table_is_plain(t),
        table_header(t) is None,
        table_rows(t) == Seq::<Seq<Seq<char>>>::empty(),
{
    Table::new()
}

/// `Table::load_preset(UTF8_FULL)`: the preset names a character for each of
/// the 19 border components, so it replaces the whole style.
#[verifier::external_body]
pub(crate) fn load_utf8_full(t: &mut Table)
    ensures
        table_style(*final(t)) == utf8_full(),
        table_header(*final(t)) == table_header(*old(t)),
        table_rows(*final(t)) == table_rows(*old(t)),
        table_is_plain(*final(t)) == table_is_plain(*old(t)),
{
    t.load_preset(comfy_table::presets::UTF8_FULL);
}

/// `Table::set_header`: the header becomes these cells.
#[verifier::external_body]
pub(crate) fn set_header(t: &mut Table, cells: Vec<String>)
    ensures
        table_header(*final(t)) == Some(cell_texts(cells@)),
        table_style(*final(t)) == table_style(*old(t)),
        table_rows(*final(t)) == table_rows(*old(t)),
        table_is_plain(*final(t)) == table_is_plain(*old(t)),
{
    t.set_header(cells);
}

/// `Table::add_row`: the cells become the last row.
#[verifier::external_body]
pub(crate) fn add_row(t: &mut Table, cells: Vec<String>)
    ensures
        table_rows(*final(t)) == table_rows(*old(t)).push(cell_texts(cells@)),
        table_header(*final(t)) == table_header(*old(t)),
        table_style(*final(t)) == table_style(*old(t)),
        table_is_plain(*final(t)) == table_is_plain(*old(t)),
{
    t.add_row(cells);
}

/// `Table::to_string`: on a plain table the text depends on the style,
/// header and rows alone, and is named `rendered_table`.
#[verifier::external_body]
pub(crate) fn render(t: &Table) -> (r: String)
    requires
        table_is_plain(*t),
    ensures
        r@ == rendered_table(table_style(*t), table_header(*t), table_rows(*t)),
{
    t.to_string()
}

} // verus!
