//! Text helpers of the rewrite tooling: aligned tables, shortened queries
//! and CSV fields.

use vstd::prelude::*;
use vstd::string::{StrSliceExecFns, StringExecFns, StringSliceAdditionalSpecFns};
use vstd::utf8::{encode_utf8, is_char_boundary};

verus! {

/// Number of UTF-8 bytes of a text.
pub open spec fn byte_len(s: Seq<char>) -> nat {
    encode_utf8(s).len()
}

/// `n` copies of the character `c` (none if `n` is not positive).
pub open spec fn repeated(c: char, n: int) -> Seq<char> {
    Seq::new(if n > 0 { n as nat } else { 0 }, |i: int| c)
}

/// A cell padded on the right with spaces to `width` characters.
pub open spec fn padded(cell: Seq<char>, width: nat) -> Seq<char> {
    cell + repeated(' ', width - cell.len())
}

/// The parts with `sep` between each two of them.
pub open spec fn joined(parts: Seq<Seq<char>>, sep: Seq<char>) -> Seq<char>
    decreases parts.len(),
{
    if parts.len() == 0 {
        Seq::empty()
    } else if parts.len() == 1 {
        parts[0]
    } else {
        joined(parts.drop_last(), sep) + sep + parts.last()
    }
}

/// Number of columns of a table: the number of cells of its first row.
pub open spec fn column_count(rows: Seq<Vec<String>>) -> nat {
    if rows.len() == 0 {
        0
    } else {
        rows[0]@.len()
    }
}

/// The largest byte length of a cell in column `c` (0 if no row has one).
pub open spec fn column_width(rows: Seq<Vec<String>>, c: int) -> nat
    decreases rows.len(),
{
    if rows.len() == 0 {
        0
    } else {
        let w = column_width(rows.drop_last(), c);
        let here = if 0 <= c < rows.last()@.len() { byte_len(rows.last()@[c]@) } else { 0 };
        if here > w { here } else { w }
    }
}

/// The widths of all columns.
pub open spec fn column_widths(rows: Seq<Vec<String>>) -> Seq<nat> {
    Seq::new(column_count(rows), |c: int| column_width(rows, c))
}

/// One row: its cells padded to their column widths, separated by `" | "`.
pub open spec fn table_line(row: Seq<String>, widths: Seq<nat>) -> Seq<char> {
    joined(Seq::new(row.len(), |i: int| padded(row[i]@, widths[i])), seq![' ', '|', ' '])
}

/// The line under the header: dashes as wide as each column, separated by `"-+-"`.
pub open spec fn separator_line(widths: Seq<nat>) -> Seq<char> {
    joined(Seq::new(widths.len(), |i: int| repeated('-', widths[i] as int)), seq!['-', '+', '-'])
}

/// The rendered table: each row on a line, the separator after the first.
pub open spec fn table_text(rows: Seq<Vec<String>>, widths: Seq<nat>) -> Seq<char>
    decreases rows.len(),
{
    if rows.len() == 0 {
        Seq::empty()
    } else {
        let head = table_text(rows.drop_last(), widths) + table_line(rows.last()@, widths) + seq!['\n'];
        if rows.len() == 1 {
            head + separator_line(widths) + seq!['\n']
        } else {
            head
        }
    }
}

/// Every column is as wide as its widest cell, the first row's included:
/// no cell of column `c` is wider than `column_width(rows, c)`, and when
/// some row has a cell in column `c` the width is that of one of them.
pub proof fn lemma_column_width_is_widest_cell(rows: Seq<Vec<String>>, c: int)
    ensures
        forall|i: int| 0 <= i < rows.len() && 0 <= c < rows[i]@.len() ==> byte_len((#[trigger] rows[i])@[c]@) <= column_width(rows, c),
        (exists|i: int| 0 <= i < rows.len() && 0 <= c < (#[trigger] rows[i])@.len()) ==> exists|i: int|
            0 <= i < rows.len() && 0 <= c < rows[i]@.len() && column_width(rows, c) == byte_len((#[trigger] rows[i])@[c]@),
        !(exists|i: int| 0 <= i < rows.len() && 0 <= c < (#[trigger] rows[i])@.len()) ==> column_width(rows, c) == 0,
    decreases rows.len(),
{
    if rows.len() > 0 {
        let init = rows.drop_last();
        lemma_column_width_is_widest_cell(init, c);
        let n = rows.len() - 1;
        assert forall|i: int| 0 <= i < rows.len() && 0 <= c < rows[i]@.len() implies byte_len((#[trigger] rows[i])@[c]@) <= column_width(rows, c) by {
            if i < n {
                assert(rows[i] == init[i]);
            }
        }
        if exists|i: int| 0 <= i < rows.len() && 0 <= c < (#[trigger] rows[i])@.len() {
            if 0 <= c < rows[n]@.len() && byte_len(rows[n]@[c]@) > column_width(init, c) {
                assert(column_width(rows, c) == byte_len(rows[n]@[c]@));
            } else if exists|i: int| 0 <= i < init.len() && 0 <= c < (#[trigger] init[i])@.len() {
                let i = choose|i: int| 0 <= i < init.len() && 0 <= c < init[i]@.len() && column_width(init, c) == byte_len((#[trigger] init[i])@[c]@);
                assert(rows[i] == init[i]);
            } else {
                assert(0 <= c < rows[n]@.len()) by {
                    let i = choose|i: int| 0 <= i < rows.len() && 0 <= c < (#[trigger] rows[i])@.len();
                    if i < n {
                        assert(rows[i] == init[i]);
                    }
                }
            }
        } else {
            assert forall|i: int| 0 <= i < init.len() implies !(0 <= c < (#[trigger] init[i])@.len()) by {
                assert(rows[i] == init[i]);
            }
        }
    }
}

/// A text has at least as many UTF-8 bytes as characters.
pub proof fn lemma_chars_within_bytes(s: Seq<char>)
    ensures
        s.len() <= byte_len(s),
    decreases s.len(),
{
    if s.len() > 0 {
        lemma_chars_within_bytes(s.drop_first());
        assert(vstd::utf8::encode_scalar(s[0] as u32).len() >= 1);
    }
}

/// Joining parts of the same lengths with separators of the same length
/// gives texts of the same length.
proof fn lemma_joined_same_len(p1: Seq<Seq<char>>, p2: Seq<Seq<char>>, s1: Seq<char>, s2: Seq<char>)
    requires
        p1.len() == p2.len(),
        forall|i: int| 0 <= i < p1.len() ==> (#[trigger] p1[i]).len() == p2[i].len(),
        s1.len() == s2.len(),
    ensures
        joined(p1, s1).len() == joined(p2, s2).len(),
    decreases p1.len(),
{
    if p1.len() > 1 {
        lemma_joined_same_len(p1.drop_last(), p2.drop_last(), s1, s2);
    }
}

/// The table is aligned: every row that has a cell in each column is as
/// long, in characters, as the line of dashes under the first row.
pub proof fn lemma_table_lines_aligned(rows: Seq<Vec<String>>, i: int)
    requires
        0 <= i < rows.len(),
        rows[i]@.len() == column_count(rows),
    ensures
        table_line(rows[i]@, column_widths(rows)).len() == separator_line(column_widths(rows)).len(),
{
    let widths = column_widths(rows);
    let row = rows[i]@;
    let p1 = Seq::new(row.len(), |c: int| padded(row[c]@, widths[c]));
    let p2 = Seq::new(widths.len(), |c: int| repeated('-', widths[c] as int));
    assert forall|c: int| 0 <= c < p1.len() implies (#[trigger] p1[c]).len() == p2[c].len() by {
        lemma_column_width_is_widest_cell(rows, c);
        assert(rows[i]@[c] == row[c]);
        lemma_chars_within_bytes(row[c]@);
        assert(row[c]@.len() <= widths[c]);
    }
    lemma_joined_same_len(p1, p2, seq![' ', '|', ' '], seq!['-', '+', '-']);
}

/// Appends `n` copies of the one-character text `unit` to `out`.
fn push_repeated(out: &mut String, unit: &str, n: usize)
    requires
        unit@.len() == 1,
    ensures
        final(out)@ == old(out)@ + repeated(unit@[0], n as int),
{
    let mut i: usize = 0;
    while i < n
        invariant
            i <= n,
            unit@.len() == 1,
            out@ == old(out)@ + repeated(unit@[0], i as int),
        decreases n - i,
    {
        out.append(unit);
        i += 1;
        assert(out@ =~= old(out)@ + repeated(unit@[0], i as int));
    }
}

/// Renders rows as a table whose columns are as wide as their widest cell
/// (in bytes), cells padded with spaces (in characters) and separated by
/// `" | "`, with a line of dashes under the first row.
pub fn format_table(rows: &[Vec<String>]) -> (r: String)
    requires
        forall|i: int, c: int| 0 <= i < rows@.len() && 0 <= c < rows@[i]@.len() ==> byte_len(#[trigger] rows@[i]@[c]@) <= usize::MAX,
        forall|i: int| 0 <= i < rows@.len() ==> (#[trigger] rows@[i])@.len() <= column_count(rows@),
    ensures
        r@ == table_text(rows@, column_widths(rows@)),
        column_widths(rows@).len() == column_count(rows@),
        forall|i: int, c: int| 0 <= i < rows@.len() && 0 <= c < column_count(rows@) && c < rows@[i]@.len()
            ==> byte_len((#[trigger] rows@[i]@[c])@) <= column_widths(rows@)[c],
        forall|c: int| 0 <= c < column_count(rows@) ==> exists|i: int|
            0 <= i < rows@.len() && c < rows@[i]@.len() && #[trigger] column_widths(rows@)[c] == byte_len(rows@[i]@[c]@),
        forall|i: int| 0 <= i < rows@.len() && (#[trigger] rows@[i])@.len() == column_count(rows@)
            ==> table_line(rows@[i]@, column_widths(rows@)).len() == separator_line(column_widths(rows@)).len(),
{
    proof {
        assert forall|i: int| 0 <= i < rows@.len() && (#[trigger] rows@[i])@.len() == column_count(rows@)
            implies table_line(rows@[i]@, column_widths(rows@)).len() == separator_line(column_widths(rows@)).len() by {
            lemma_table_lines_aligned(rows@, i);
        }
    }
    proof {
        assert forall|c: int| 0 <= c < column_count(rows@) implies {
            &&& forall|i: int| 0 <= i < rows@.len() && c < rows@[i]@.len()
                ==> byte_len((#[trigger] rows@[i])@[c]@) <= column_widths(rows@)[c]
            &&& exists|i: int| 0 <= i < rows@.len() && c < rows@[i]@.len() && #[trigger] column_widths(rows@)[c] == byte_len(rows@[i]@[c]@)
        } by {
            lemma_column_width_is_widest_cell(rows@, c);
            assert(c < rows@[0]@.len());
        }
    }
    let ncols: usize = if rows.len() == 0 { 0 } else { rows[0].len() };
    let mut widths: Vec<usize> = Vec::new();
    let mut c: usize = 0;
    while c < ncols
        invariant
            ncols == column_count(rows@),
            c <= ncols,
            widths@.len() == c,
            forall|k: int| 0 <= k < c ==> widths@[k] == column_width(rows@, k),
            forall|i: int, c: int| 0 <= i < rows@.len() && 0 <= c < rows@[i]@.len() ==> byte_len(#[trigger] rows@[i]@[c]@) <= usize::MAX,
        decreases ncols - c,
    {
        let mut w: usize = 0;
        let mut i: usize = 0;
        while i < rows.len()
            invariant
                i <= rows@.len(),
                c < ncols,
                ncols == column_count(rows@),
                w == column_width(rows@.take(i as int), c as int),
                forall|i: int, c: int| 0 <= i < rows@.len() && 0 <= c < rows@[i]@.len() ==> byte_len(#[trigger] rows@[i]@[c]@) <= usize::MAX,
            decreases rows@.len() - i,
        {
            proof {
                assert(rows@.take(i + 1).drop_last() =~= rows@.take(i as int));
            }
            if c < rows[i].len() {
                assert(rows@.take(i + 1).last() == rows@[i as int]);
                assert(byte_len(rows@[i as int]@[c as int]@) <= usize::MAX);
                let len = rows[i][c].as_str().len();
                if len > w {
                    w = len;
                }
            }
            i += 1;
        }
        assert(rows@.take(rows@.len() as int) =~= rows@);
        widths.push(w);
        c += 1;
    }
    let ghost ws = column_widths(rows@);
    assert(widths@.map_values(|x: usize| x as nat) =~= ws);

    let mut output = String::new();
    let mut row_idx: usize = 0;
    assert(rows@.take(0) =~= Seq::<Vec<String>>::empty());
    while row_idx < rows.len()
        invariant
            row_idx <= rows@.len(),
            widths@.len() == column_count(rows@),
            forall|k: int| 0 <= k < widths@.len() ==> widths@[k] == ws[k],
            ws == column_widths(rows@),
            forall|i: int| 0 <= i < rows@.len() ==> (#[trigger] rows@[i])@.len() <= column_count(rows@),
            output@ == table_text(rows@.take(row_idx as int), ws),
        decreases rows@.len() - row_idx,
    {
        let row = &rows[row_idx];
        let ghost start = output@;
        let ghost cells = Seq::new(row@.len(), |i: int| padded(row@[i]@, ws[i]));
        let mut idx: usize = 0;
        while idx < row.len()
            invariant
                idx <= row@.len(),
                row@.len() <= widths@.len(),
                forall|k: int| 0 <= k < widths@.len() ==> widths@[k] == ws[k],
                cells == Seq::new(row@.len(), |i: int| padded(row@[i]@, ws[i])),
                output@ == start + joined(cells.take(idx as int), seq![' ', '|', ' ']),
            decreases row@.len() - idx,
        {
            let ghost before = output@;
            if idx > 0 {
                output.append(" | ");
                proof {
                    reveal_strlit(" | ");
                }
            }
            let cell = &row[idx];
            output.append(cell.as_str());
            let chars = cell.as_str().unicode_len();
            if chars < widths[idx] {
                proof {
                    reveal_strlit(" ");
                }
                push_repeated(&mut output, " ", widths[idx] - chars);
            } else {
                proof {
                    assert(repeated(' ', ws[idx as int] - cell@.len()) =~= Seq::<char>::empty());
                }
            }
            proof {
                let t1 = cells.take(idx + 1);
                assert(t1.last() == cells[idx as int]);
                assert(t1.drop_last() =~= cells.take(idx as int));
                if idx == 0 {
                    assert(cells.take(0) =~= Seq::<Seq<char>>::empty());
                }
            }
            idx += 1;
            assert(output@ =~= start + joined(cells.take(idx as int), seq![' ', '|', ' ']));
        }
        assert(cells.take(row@.len() as int) =~= cells);
        output.append("\n");
        proof {
            reveal_strlit("\n");
        }
        let ghost after_line = output@;
        if row_idx == 0 {
            let ghost sep_start = output@;
            let ghost dashes = Seq::new(ws.len(), |i: int| repeated('-', ws[i] as int));
            let mut k: usize = 0;
            while k < widths.len()
                invariant
                    k <= widths@.len(),
                    widths@.len() == ws.len(),
                    forall|m: int| 0 <= m < widths@.len() ==> widths@[m] == ws[m],
                    dashes == Seq::new(ws.len(), |i: int| repeated('-', ws[i] as int)),
                    output@ == sep_start + joined(dashes.take(k as int), seq!['-', '+', '-']),
                decreases widths@.len() - k,
            {
                if k > 0 {
                    output.append("-+-");
                    proof {
                        reveal_strlit("-+-");
                    }
                }
                proof {
                    reveal_strlit("-");
                }
                push_repeated(&mut output, "-", widths[k]);
                proof {
                    let t1 = dashes.take(k + 1);
                    assert(t1.last() == dashes[k as int]);
                    assert(t1.drop_last() =~= dashes.take(k as int));
                    if k == 0 {
                        assert(dashes.take(0) =~= Seq::<Seq<char>>::empty());
                    }
                }
                k += 1;
                assert(output@ =~= sep_start + joined(dashes.take(k as int), seq!['-', '+', '-']));
            }
            assert(dashes.take(ws.len() as int) =~= dashes);
            output.append("\n");
        }
        proof {
            let t1 = rows@.take(row_idx + 1);
            assert(t1.drop_last() =~= rows@.take(row_idx as int));
            assert(t1.last() == rows@[row_idx as int]);
        }
        row_idx += 1;
        assert(output@ =~= table_text(rows@.take(row_idx as int), ws));
    }
    assert(rows@.take(rows@.len() as int) =~= rows@);
    output
}

/// Shortens a query to at most `max_len` bytes: a query that fits is kept,
/// a longer one keeps its first `max_len - 3` bytes (none when `max_len < 3`)
/// followed by `"..."`.
pub fn truncate_query(query: &str, max_len: usize) -> (r: String)
    requires
        query.spec_bytes().len() <= usize::MAX,
        query.spec_bytes().len() <= max_len || is_char_boundary(
            query.spec_bytes(),
            (if max_len >= 3 { max_len - 3 } else { 0 }) as int,
        ),
    ensures
        query.spec_bytes().len() <= max_len ==> r@ == query@,
        query.spec_bytes().len() > max_len ==> encode_utf8(r@) == query.spec_bytes().take(
            (if max_len >= 3 { max_len - 3 } else { 0 }) as int,
        ) + seq![46u8, 46u8, 46u8],
{
    if query.len() <= max_len {
        return query.to_owned();
    }
    let keep = max_len.saturating_sub(3);
    let (prefix, _) = query.split_at(keep);
    let mut out = prefix.to_owned();
    out.append("...");
    proof {
        reveal_strlit("...");
        lemma_encode_utf8_concat(prefix@, "..."@);
        let dots = "..."@;
        assert(dots =~= seq!['.', '.', '.']);
        assert(('.' as u32) == 46u32);
        assert((46u32 & 0x7Fu32) as u8 == 46u8) by (bit_vector);
        assert(vstd::utf8::encode_scalar('.' as u32) =~= seq![46u8]);
        assert(dots.drop_first().drop_first().drop_first() =~= Seq::<char>::empty());
        assert(encode_utf8(dots) =~= seq![46u8, 46u8, 46u8]) by {
            reveal_with_fuel(encode_utf8, 4);
        }
    }
    out
}

/// UTF-8 encoding distributes over concatenation.
pub proof fn lemma_encode_utf8_concat(a: Seq<char>, b: Seq<char>)
    ensures
        encode_utf8(a + b) == encode_utf8(a) + encode_utf8(b),
    decreases a.len(),
{
    if a.len() == 0 {
        assert(a + b =~= b);
    } else {
        lemma_encode_utf8_concat(a.drop_first(), b);
        assert((a + b).drop_first() =~= a.drop_first() + b);
        assert(encode_utf8(a + b) =~= vstd::utf8::encode_scalar(a[0] as u32) + encode_utf8(a.drop_first() + b));
    }
}


/// A character that forces a CSV field into quotes.
pub open spec fn csv_special(c: char) -> bool {
    c == ',' || c == '"' || c == '\n' || c == '\r'
}

/// `s` with each double quote doubled.
pub open spec fn double_quotes(s: Seq<char>) -> Seq<char>
    decreases s.len(),
{
    if s.len() == 0 {
        Seq::empty()
    } else if s.last() == '"' {
        double_quotes(s.drop_last()) + seq!['"', '"']
    } else {
        double_quotes(s.drop_last()).push(s.last())
    }
}

/// The CSV field for `s`: quoted, with inner quotes doubled, when `s` holds a
/// comma, a quote or a line break; `s` itself otherwise.
pub open spec fn csv_field(s: Seq<char>) -> Seq<char> {
    if exists|i: int| 0 <= i < s.len() && csv_special(#[trigger] s[i]) {
        seq!['"'] + double_quotes(s) + seq!['"']
    } else {
        s
    }
}

/// The CSV field for `value` (see [`csv_field`]).
pub fn csv_escape(value: &str) -> (r: String)
    ensures
        r@ == csv_field(value@),
{
    let n = value.unicode_len();
    let mut special = false;
    let mut i: usize = 0;
    while i < n && !special
        invariant
            n == value@.len(),
            i <= n,
            special ==> exists|j: int| 0 <= j < value@.len() && csv_special(#[trigger] value@[j]),
            !special ==> forall|j: int| 0 <= j < i ==> !csv_special(#[trigger] value@[j]),
        decreases n - i,
    {
        let c = value.get_char(i);
        if c == ',' || c == '"' || c == '\n' || c == '\r' {
            special = true;
        }
        i += 1;
    }
    if !special {
        return value.to_owned();
    }
    let mut out = String::from_str("\"");
    proof {
        reveal_strlit("\"");
    }
    let mut k: usize = 0;
    while k < n
        invariant
            n == value@.len(),
            k <= n,
            out@ == seq!['"'] + double_quotes(value@.take(k as int)),
        decreases n - k,
    {
        let c = value.get_char(k);
        proof {
            assert(value@.take(k + 1).drop_last() =~= value@.take(k as int));
            assert(value@.take(k + 1).last() == c);
        }
        if c == '"' {
            out.append("\"\"");
            proof {
                reveal_strlit("\"\"");
            }
        } else {
            let one = value.substring_char(k, k + 1);
            out.append(one);
            proof {
                assert(one@ =~= seq![c]);
            }
        }
        k += 1;
    }
    proof {
        assert(value@.take(n as int) =~= value@);
    }
    out.append("\"");
    proof {
        reveal_strlit("\"");
    }
    out
}


/// The decimal digits of `n`.
pub open spec fn decimal(n: nat) -> Seq<char>
    decreases n,
{
    if n < 10 {
        seq!["0123456789"@[n as int]]
    } else {
        decimal(n / 10).push("0123456789"@[(n % 10) as int])
    }
}

/// `n` in decimal.
fn usize_to_decimal(n: usize) -> (r: String)
    ensures
        r@ == decimal(n as nat),
    decreases n,
{
    let digits = "0123456789";
    proof {
        reveal_strlit("0123456789");
    }
    if n < 10 {
        digits.substring_char(n, n + 1).to_owned()
    } else {
        let mut r = usize_to_decimal(n / 10);
        let d = n % 10;
        r.append(digits.substring_char(d, d + 1));
        r
    }
}

/// The report of `rq-rewrite`: the query, the schema file, how many
/// rewrites there are, and each rewrite numbered from 1.
pub open spec fn rewrite_report(query: Seq<char>, schema_file: Seq<char>, rewritten: Seq<Seq<char>>) -> Seq<char> {
    "Input query: "@ + query + "\nSchema file: "@ + schema_file + "\nEquivalent rewrites: "@ + decimal(rewritten.len())
        + numbered_lines(rewritten)
}

/// Each text on a line of its own, numbered from 1.
pub open spec fn numbered_lines(texts: Seq<Seq<char>>) -> Seq<char>
    decreases texts.len(),
{
    if texts.len() == 0 {
        Seq::empty()
    } else {
        numbered_lines(texts.drop_last()) + "\n"@ + decimal(texts.len()) + ". "@ + texts.last()
    }
}

/// The report of `rq-rewrite` (see [`rewrite_report`]).
pub fn render_text(query: &str, schema_file: &str, rewritten: &[String]) -> (r: String)
    requires
        rewritten@.len() < usize::MAX,
    ensures
        r@ == rewrite_report(query@, schema_file@, rewritten@.map_values(|s: String| s@)),
{
    let ghost texts = rewritten@.map_values(|s: String| s@);
    let mut output = String::from_str("Input query: ");
    output.append(query);
    output.append("\nSchema file: ");
    output.append(schema_file);
    output.append("\nEquivalent rewrites: ");
    let count = usize_to_decimal(rewritten.len());
    output.append(count.as_str());
    let ghost header = output@;
    let mut idx: usize = 0;
    proof {
        assert(texts.take(0) =~= Seq::<Seq<char>>::empty());
    }
    while idx < rewritten.len()
        invariant
            texts == rewritten@.map_values(|s: String| s@),
            rewritten@.len() < usize::MAX,
            idx <= rewritten@.len(),
            output@ == header + numbered_lines(texts.take(idx as int)),
        decreases rewritten@.len() - idx,
    {
        output.append("\n");
        let number = usize_to_decimal(idx + 1);
        output.append(number.as_str());
        output.append(". ");
        output.append(rewritten[idx].as_str());
        proof {
            assert(texts.take(idx + 1).drop_last() =~= texts.take(idx as int));
            assert(texts.take(idx + 1).last() == rewritten@[idx as int]@);
        }
        idx += 1;
    }
    proof {
        assert(texts.take(rewritten@.len() as int) =~= texts);
    }
    output
}

} // verus!
