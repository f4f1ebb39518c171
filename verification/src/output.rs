//! Rendering of wordlists and search results as text.
use vstd::prelude::*;
use vstd::arithmetic::div_mod::{lemma_fundamental_div_mod, lemma_fundamental_div_mod_converse};
use crate::text::{
    byte_len, chars_of, dec, int_dec, pad_right, push_char, push_dec, push_padded, push_repeat, push_str,
    repeat_char, str_byte_len, string_from_chars, views,
};
use crate::db::WordlistEntry;
use crate::error::WlError;
use crate::search::FuzzyResult;
use vstd::string::StringExecFns;

verus! {

/// How results are printed.
#[derive(Clone, Copy, PartialEq, Eq, Debug)]
pub enum OutputMode {
    Plain,
    Json,
    Table,
}

impl OutputMode {
    /// The mode the global flags ask for: JSON, a table, or plain output by default. Asking for
    /// JSON and a table at once is a usage error.
    pub fn from_flags(json: bool, table: bool) -> (r: Result<OutputMode, WlError>)
        ensures
            json && table ==> (r matches Err(WlError::Usage(m)) && m@ == "--json and --table cannot be used together"@),
            !(json && table) ==> r == Ok::<OutputMode, WlError>(if json {
                OutputMode::Json
            } else if table {
                OutputMode::Table
            } else {
                OutputMode::Plain
            }),
    {
        if json && table {
            Err(WlError::Usage(String::from_str("--json and --table cannot be used together")))
        } else if json {
            Ok(OutputMode::Json)
        } else if table {
            Ok(OutputMode::Table)
        } else {
            Ok(OutputMode::Plain)
        }
    }
}

pub open spec fn kib() -> nat {
    1024
}

pub open spec fn mib() -> nat {
    1048576
}

pub open spec fn gib() -> nat {
    1073741824
}

/// `n / d` rounded to the nearest integer, ties to the even neighbour.
pub open spec fn round_half_even(n: nat, d: nat) -> nat {
    let q = n / d;
    let r = n % d;
    if 2 * r > d || (2 * r == d && q % 2 == 1) {
        q + 1
    } else {
        q
    }
}

/// `b / unit` written with one decimal, rounded to nearest with ties to even.
pub open spec fn one_decimal(b: nat, unit: nat) -> Seq<char> {
    let t = round_half_even(b * 10, unit);
    dec(t / 10) + seq!['.'] + dec(t % 10)
}

/// A size in bytes made readable: GB, MB or KB with one decimal, else plain bytes.
pub open spec fn size_text(bytes: int) -> Seq<char> {
    if bytes >= gib() {
        one_decimal(bytes as nat, gib()) + " GB"@
    } else if bytes >= mib() {
        one_decimal(bytes as nat, mib()) + " MB"@
    } else if bytes >= kib() {
        one_decimal(bytes as nat, kib()) + " KB"@
    } else {
        int_dec(bytes) + " B"@
    }
}

/// Appends `b / unit` with one decimal.
pub(crate) fn push_one_decimal(s: &mut String, b: u64, unit: u64)
    requires
        1024 <= unit <= 1073741824,
    ensures
        final(s)@ == old(s)@ + one_decimal(b as nat, unit as nat),
{
    let q = b / unit;
    let rem = b % unit;
    proof {
        lemma_fundamental_div_mod(b as int, unit as int);
    }
    assert(q <= b);
    let r10 = rem * 10;
    let t = r10 / unit;
    let r2 = r10 % unit;
    proof {
        lemma_fundamental_div_mod(r10 as int, unit as int);
        assert((q * 10 + t) * unit + r2 == b * 10) by (nonlinear_arith)
            requires
                b == unit * q + rem,
                r10 == rem * 10,
                r10 == unit * t + r2,
        ;
        lemma_fundamental_div_mod_converse((b * 10) as int, unit as int, (q * 10 + t) as int, r2 as int);
        assert(q * 10 <= b * 10) by (nonlinear_arith)
            requires
                q <= b,
        ;
        assert(q * 1024 <= b) by (nonlinear_arith)
            requires
                b == unit * q + rem,
                unit >= 1024,
                rem >= 0,
                q >= 0,
        ;
        assert(t <= 10) by (nonlinear_arith)
            requires
                r10 == unit * t + r2,
                rem < unit,
                r10 == rem * 10,
                r2 >= 0,
        ;
    }
    let n = q * 10 + t;
    let rounded = if 2 * r2 > unit || (2 * r2 == unit && n % 2 == 1) {
        n + 1
    } else {
        n
    };
    assert(rounded == round_half_even((b * 10) as nat, unit as nat));
    push_dec(s, rounded / 10);
    push_char(s, '.');
    push_dec(s, rounded % 10);
    assert(final(s)@ =~= old(s)@ + one_decimal(b as nat, unit as nat));
}

/// A size in bytes made readable (`1.5 KB`, `3.2 MB`, `1.0 GB`, `12 B`).
pub fn format_size(bytes: i64) -> (r: String)
    ensures
        r@ == size_text(bytes as int),
{
    let mut s = String::new();
    if bytes >= 1073741824 {
        push_one_decimal(&mut s, bytes as u64, 1073741824);
        push_str(&mut s, " GB");
    } else if bytes >= 1048576 {
        push_one_decimal(&mut s, bytes as u64, 1048576);
        push_str(&mut s, " MB");
    } else if bytes >= 1024 {
        push_one_decimal(&mut s, bytes as u64, 1024);
        push_str(&mut s, " KB");
    } else {
        s = crate::text::i64_to_dec(bytes);
        push_str(&mut s, " B");
    }
    assert(s@ =~= size_text(bytes as int));
    s
}

/// A string cut to at most `max` characters; a cut string ends in '…'.
pub open spec fn truncated(s: Seq<char>, max: nat) -> Seq<char> {
    if max == 0 {
        Seq::empty()
    } else if s.len() <= max {
        s
    } else {
        s.take(max - 1).push('…')
    }
}

/// A cut string fits: it has at most `max` characters, and a string that already fits is
/// left as it is.
pub proof fn law_truncated_fits(s: Seq<char>, max: nat)
    ensures
        truncated(s, max).len() <= max,
        s.len() <= max ==> truncated(s, max) == s,
{
}

/// Cuts `s` to at most `max` characters, marking a cut with '…'.
pub fn truncate(s: &str, max: usize) -> (r: String)
    ensures
        r@ == truncated(s@, max as nat),
{
    if max == 0 {
        return String::new();
    }
    let chars = chars_of(s);
    if chars.len() <= max {
        return s.to_owned();
    }
    let mut kept: Vec<char> = Vec::new();
    let mut i: usize = 0;
    while i < max - 1
        invariant
            i <= max - 1,
            max - 1 < chars@.len(),
            kept@ == chars@.take(i as int),
        decreases max - 1 - i,
    {
        kept.push(chars[i]);
        i = i + 1;
        assert(kept@ =~= chars@.take(i as int));
    }
    kept.push('…');
    string_from_chars(kept.as_slice())
}


/// The smaller of two numbers.
pub open spec fn min_nat(a: nat, b: nat) -> nat {
    if a < b {
        a
    } else {
        b
    }
}

/// The larger of two numbers.
pub open spec fn max_nat(a: nat, b: nat) -> nat {
    if a > b {
        a
    } else {
        b
    }
}

/// The width that column `i` needs: the longest of its header and cells, in bytes, each
/// capped at `cap`.
pub open spec fn content_width(header: Seq<char>, rows: Seq<Seq<Seq<char>>>, i: int, cap: nat) -> nat
    decreases rows.len(),
{
    if rows.len() == 0 {
        min_nat(byte_len(header) as nat, cap)
    } else {
        let before = content_width(header, rows.drop_last(), i, cap);
        if 0 <= i < rows.last().len() {
            max_nat(before, min_nat(byte_len(rows.last()[i]) as nat, cap))
        } else {
            before
        }
    }
}

proof fn lemma_content_width_le_cap(header: Seq<char>, rows: Seq<Seq<Seq<char>>>, i: int, cap: nat)
    ensures
        content_width(header, rows, i, cap) <= cap,
    decreases rows.len(),
{
    if rows.len() > 0 {
        lemma_content_width_le_cap(header, rows.drop_last(), i, cap);
    }
}

/// The sum of the first `k` widths.
pub open spec fn width_sum(widths: Seq<nat>, k: int) -> nat
    decreases k,
{
    if k <= 0 {
        0
    } else {
        width_sum(widths, k - 1) + widths[k - 1]
    }
}

/// The width each column's content needs, capped.
pub open spec fn column_widths(headers: Seq<Seq<char>>, rows: Seq<Seq<Seq<char>>>, caps: Seq<nat>) -> Seq<nat> {
    Seq::new(headers.len(), |i: int| content_width(headers[i], rows, i, caps[i]))
}

proof fn lemma_width_sum_monotone(ws: Seq<nat>, a: int, b: int)
    requires
        0 <= a <= b,
    ensures
        width_sum(ws, a) <= width_sum(ws, b),
    decreases b,
{
    if a < b {
        lemma_width_sum_monotone(ws, a, b - 1);
    }
}

proof fn lemma_width_le_sum(ws: Seq<nat>, j: int, k: int)
    requires
        0 <= j < k,
    ensures
        ws[j] <= width_sum(ws, k),
{
    lemma_width_sum_monotone(ws, j + 1, k);
}

proof fn lemma_width_sum_capped(ws: Seq<nat>, k: int, cap: nat)
    requires
        0 <= k,
        forall|j: int| 0 <= j < k ==> ws[j] <= cap,
    ensures
        width_sum(ws, k) <= cap * k,
    decreases k,
{
    if k > 0 {
        lemma_width_sum_capped(ws, k - 1, cap);
        assert(cap * (k - 1) + cap == cap * k) by (nonlinear_arith);
    }
}

/// A table of at most 1000 columns whose columns but the last are capped at a million
/// characters has widths that fit in machine numbers.
pub proof fn lemma_small_table(headers: Seq<Seq<char>>, rows: Seq<Seq<Seq<char>>>, caps: Seq<nat>)
    requires
        0 < headers.len() <= 1000,
        caps.len() >= headers.len(),
        forall|i: int| 0 <= i < headers.len() - 1 ==> caps[i] <= 1000000,
    ensures
        width_sum(column_widths(headers, rows, caps), headers.len() - 1) + 2 * headers.len() <= usize::MAX,
{
    let n = headers.len() as int;
    let ws = column_widths(headers, rows, caps);
    assert forall|j: int| 0 <= j < n - 1 implies ws[j] <= 1000000 by {
        lemma_content_width_le_cap(headers[j], rows, j, caps[j]);
    }
    lemma_width_sum_capped(ws, n - 1, 1000000);
    assert(1000000 * (n - 1) <= 999000000) by (nonlinear_arith)
        requires
            n <= 1000,
            n >= 1,
    ;
}

/// The widths of a table: each column as wide as its content (capped), and the last one
/// taking what the terminal has left beyond the others and their two-space gaps, at least 20.
pub open spec fn table_widths(
    headers: Seq<Seq<char>>,
    rows: Seq<Seq<Seq<char>>>,
    caps: Seq<nat>,
    term_width: nat,
) -> Seq<nat> {
    let n = headers.len();
    let content = column_widths(headers, rows, caps);
    let fixed = width_sum(content, n - 1) + 2 * (n - 1);
    let rest = if term_width >= fixed + 2 {
        (term_width - (fixed + 2)) as nat
    } else {
        0
    };
    content.update(n - 1, max_nat(rest, 20))
}

/// One cell of a line: the last column as it is, the others padded and followed by two spaces.
pub open spec fn cell_text(cell: Seq<char>, width: nat, last: bool) -> Seq<char> {
    if last {
        cell
    } else {
        pad_right(cell, width) + "  "@
    }
}

/// The cells of a line; data cells are first cut to their column's width.
pub open spec fn line_text(cells: Seq<Seq<char>>, widths: Seq<nat>, n: nat, cut: bool) -> Seq<char>
    decreases cells.len(),
{
    if cells.len() == 0 {
        Seq::empty()
    } else {
        let i = cells.len() - 1;
        let c = if cut {
            truncated(cells.last(), widths[i])
        } else {
            cells.last()
        };
        line_text(cells.drop_last(), widths, n, cut) + cell_text(c, widths[i], i == n - 1)
    }
}

/// The rule under the header: one '─' per column character and per gap.
pub open spec fn rule_text(widths: Seq<nat>, k: int) -> Seq<char>
    decreases k,
{
    if k <= 0 {
        Seq::empty()
    } else {
        rule_text(widths, k - 1) + repeat_char(
            '─',
            if k - 1 == widths.len() - 1 {
                widths[k - 1]
            } else {
                widths[k - 1] + 2
            },
        )
    }
}

/// The data lines of a table.
pub open spec fn rows_text(rows: Seq<Seq<Seq<char>>>, widths: Seq<nat>, n: nat, cut: bool) -> Seq<char>
    decreases rows.len(),
{
    if rows.len() == 0 {
        Seq::empty()
    } else {
        rows_text(rows.drop_last(), widths, n, cut) + line_text(rows.last(), widths, n, cut) + seq!['\n']
    }
}

/// A whole table: header, rule, then one line per row.
pub open spec fn table_text(
    headers: Seq<Seq<char>>,
    rows: Seq<Seq<Seq<char>>>,
    caps: Seq<nat>,
    term_width: nat,
) -> Seq<char> {
    if headers.len() == 0 {
        Seq::empty()
    } else {
        let w = table_widths(headers, rows, caps, term_width);
        let n = headers.len();
        line_text(headers, w, n, false) + seq!['\n'] + rule_text(w, n as int) + seq!['\n'] + rows_text(
            rows,
            w,
            n,
            true,
        )
    }
}

/// The character views of the cells of each row.
pub open spec fn rows_views(rows: Seq<Vec<String>>) -> Seq<Seq<Seq<char>>> {
    rows.map_values(|r: Vec<String>| views(r@))
}

/// The caps as numbers.
pub open spec fn caps_view(caps: Seq<usize>) -> Seq<nat> {
    caps.map_values(|c: usize| c as nat)
}

/// Appends the cells of one line.
pub(crate) fn push_line(s: &mut String, cells: &Vec<String>, widths: &Vec<usize>, n: usize, cut: bool)
    requires
        cells@.len() <= n,
        widths@.len() == n,
    ensures
        final(s)@ == old(s)@ + line_text(views(cells@), widths@.map_values(|w: usize| w as nat), n as nat, cut),
{
    let ghost wv = widths@.map_values(|w: usize| w as nat);
    let mut i: usize = 0;
    while i < cells.len()
        invariant
            i <= cells@.len(),
            cells@.len() <= n,
            widths@.len() == n,
            wv == widths@.map_values(|w: usize| w as nat),
            s@ == old(s)@ + line_text(views(cells@).take(i as int), wv, n as nat, cut),
        decreases cells@.len() - i,
    {
        let ghost before = s@;
        let cell = if cut {
            truncate(cells[i].as_str(), widths[i])
        } else {
            cells[i].clone()
        };
        if i == n - 1 {
            push_str(s, cell.as_str());
        } else {
            push_padded(s, cell.as_str(), widths[i]);
            push_str(s, "  ");
        }
        assert(views(cells@).take(i + 1).drop_last() =~= views(cells@).take(i as int));
        assert(views(cells@).take(i + 1).last() == cells@[i as int]@);
        i = i + 1;
        assert(s@ =~= old(s)@ + line_text(views(cells@).take(i as int), wv, n as nat, cut));
    }
    assert(views(cells@).take(i as int) =~= views(cells@));
}

/// The width column `i` needs over all rows.
pub(crate) fn column_width(header: &String, rows: &Vec<Vec<String>>, i: usize, cap: usize) -> (r: usize)
    ensures
        r as nat == content_width(header@, rows_views(rows@), i as int, cap as nat),
{
    let hl = str_byte_len(header.as_str());
    let mut w: usize = if hl < cap {
        hl
    } else {
        cap
    };
    let mut k: usize = 0;
    while k < rows.len()
        invariant
            k <= rows@.len(),
            w as nat == content_width(header@, rows_views(rows@.take(k as int)), i as int, cap as nat),
        decreases rows@.len() - k,
    {
        assert(rows_views(rows@.take(k + 1)).drop_last() =~= rows_views(rows@.take(k as int)));
        assert(rows_views(rows@.take(k + 1)).last() == views(rows@[k as int]@));
        if i < rows[k].len() {
            let cl = str_byte_len(rows[k][i].as_str());
            let c = if cl < cap {
                cl
            } else {
                cap
            };
            if c > w {
                w = c;
            }
        }
        k = k + 1;
    }
    assert(rows@.take(k as int) =~= rows@);
    w
}

/// Lays out a table: every column as wide as its content (capped by `caps`), the last one
/// filling what is left of `term_width` (at least 20 characters); cells are cut to fit. The
/// widths of the columns but the last, with their gaps, must fit in a machine number.
pub fn format_table(headers: &Vec<String>, rows: &Vec<Vec<String>>, caps: &Vec<usize>, term_width: usize) -> (r: String)
    requires
        caps@.len() >= headers@.len(),
        headers@.len() > 0 ==> width_sum(
            column_widths(views(headers@), rows_views(rows@), caps_view(caps@)),
            headers@.len() - 1,
        ) + 2 * headers@.len() <= usize::MAX,
        forall|k: int| 0 <= k < rows@.len() ==> (#[trigger] rows@[k])@.len() <= headers@.len(),
    ensures
        r@ == table_text(views(headers@), rows_views(rows@), caps_view(caps@), term_width as nat),
{
    let n = headers.len();
    if n == 0 {
        return String::new();
    }
    let ghost hv = views(headers@);
    let ghost rv = rows_views(rows@);
    let ghost cv = caps_view(caps@);
    let ghost content = column_widths(hv, rv, cv);
    let mut widths: Vec<usize> = Vec::new();
    let mut i: usize = 0;
    while i < n
        invariant
            i <= n,
            n == headers@.len(),
            caps@.len() >= n,
            hv == views(headers@),
            rv == rows_views(rows@),
            cv == caps_view(caps@),
            content == column_widths(hv, rv, cv),
            widths@.map_values(|w: usize| w as nat) == content.take(i as int),
            widths@.len() == i,
            forall|j: int| 0 <= j < i ==> widths@[j] <= caps@[j],
        decreases n - i,
    {
        assert(hv[i as int] == headers@[i as int]@);
        assert(cv[i as int] == caps@[i as int] as nat);
        proof {
            lemma_content_width_le_cap(hv[i as int], rv, i as int, cv[i as int]);
        }
        let w = column_width(&headers[i], rows, i, caps[i]);
        let ghost before = widths@;
        assert(content[i as int] == w as nat);
        widths.push(w);
        i = i + 1;
        assert forall|j: int| 0 <= j < i implies widths@.map_values(|w: usize| w as nat)[j] == content.take(i as int)[j] by {
            if j < i - 1 {
                assert(before.map_values(|w: usize| w as nat)[j] == content.take(i - 1)[j]);
                assert(widths@[j] == before[j]);
            }
        }
        assert(widths@.map_values(|w: usize| w as nat) =~= content.take(i as int));
    }
    assert(content.take(n as int) =~= content);
    let mut fixed: usize = 0;
    let mut k: usize = 0;
    while k < n - 1
        invariant
            k <= n - 1,
            n == headers@.len(),
            widths@.len() == n,
            widths@.map_values(|w: usize| w as nat) == content,
            width_sum(content, n - 1) + 2 * n <= usize::MAX,
            fixed as nat == width_sum(content, k as int),
        decreases n - 1 - k,
    {
        assert(widths@.map_values(|w: usize| w as nat)[k as int] == widths@[k as int] as nat);
        proof {
            lemma_width_sum_monotone(content, k + 1, n - 1);
        }
        fixed = fixed + widths[k];
        k = k + 1;
    }
    let fixed_all = fixed + 2 * (n - 1);
    let rest = if term_width >= fixed_all + 2 {
        term_width - (fixed_all + 2)
    } else {
        0
    };
    let last = if rest > 20 {
        rest
    } else {
        20
    };
    let ghost wv = table_widths(hv, rv, cv, term_width as nat);
    proof {
        assert forall|j: int| 0 <= j < n - 1 implies widths@[j] + 2 <= usize::MAX by {
            assert(widths@.map_values(|w: usize| w as nat)[j] == widths@[j] as nat);
            lemma_width_le_sum(content, j, n - 1);
        }
    }
    widths.set(n - 1, last);
    assert(widths@.map_values(|w: usize| w as nat) =~= wv);
    let mut s = String::new();
    push_line(&mut s, headers, &widths, n, false);
    push_char(&mut s, '\n');
    let mut c: usize = 0;
    while c < n
        invariant
            c <= n,
            widths@.len() == n,
            forall|j: int| 0 <= j < n - 1 ==> widths@[j] + 2 <= usize::MAX,
            wv == widths@.map_values(|w: usize| w as nat),
            s@ == line_text(hv, wv, n as nat, false) + seq!['\n'] + rule_text(wv, c as int),
        decreases n - c,
    {
        assert(wv[c as int] == widths@[c as int] as nat);
        if c == n - 1 {
            push_repeat(&mut s, '─', widths[c]);
        } else {
            push_repeat(&mut s, '─', widths[c] + 2);
        }
        c = c + 1;
        assert(s@ =~= line_text(hv, wv, n as nat, false) + seq!['\n'] + rule_text(wv, c as int));
    }
    push_char(&mut s, '\n');
    let mut r: usize = 0;
    while r < rows.len()
        invariant
            r <= rows@.len(),
            n == headers@.len(),
            widths@.len() == n,
            wv == widths@.map_values(|w: usize| w as nat),
            rv == rows_views(rows@),
            forall|k: int| 0 <= k < rows@.len() ==> (#[trigger] rows@[k])@.len() <= headers@.len(),
            s@ == line_text(hv, wv, n as nat, false) + seq!['\n'] + rule_text(wv, n as int) + seq!['\n']
                + rows_text(rv.take(r as int), wv, n as nat, true),
        decreases rows@.len() - r,
    {
        push_line(&mut s, &rows[r], &widths, n, true);
        push_char(&mut s, '\n');
        assert(rv.take(r + 1).drop_last() =~= rv.take(r as int));
        assert(rv.take(r + 1).last() == views(rows@[r as int]@));
        r = r + 1;
        assert(s@ =~= line_text(hv, wv, n as nat, false) + seq!['\n'] + rule_text(wv, n as int) + seq!['\n']
            + rows_text(rv.take(r as int), wv, n as nat, true));
    }
    assert(rv.take(r as int) =~= rv);
    s
}


/// Lines of text, each followed by a newline.
pub open spec fn lines_text(lines: Seq<Seq<char>>) -> Seq<char>
    decreases lines.len(),
{
    if lines.len() == 0 {
        Seq::empty()
    } else {
        lines_text(lines.drop_last()) + lines.last() + seq!['\n']
    }
}

/// Appends a line and its newline.
pub(crate) fn push_line_text(s: &mut String, line: &str, Ghost(lines): Ghost<Seq<Seq<char>>>)
    requires
        old(s)@ == lines_text(lines),
    ensures
        final(s)@ == lines_text(lines.push(line@)),
{
    push_str(s, line);
    push_char(s, '\n');
    assert(lines.push(line@).drop_last() =~= lines);
    assert(final(s)@ =~= lines_text(lines.push(line@)));
}

/// A string, or a default when there is none.
pub open spec fn opt_or(o: Option<String>, d: Seq<char>) -> Seq<char> {
    match o {
        Some(s) => s@,
        None => d,
    }
}

/// A copy of an optional string, or the default.
pub fn opt_or_exec(o: &Option<String>, d: &str) -> (r: String)
    ensures
        r@ == opt_or(*o, d@),
{
    match o {
        Some(s) => s.clone(),
        None => d.to_owned(),
    }
}

/// The column titles of the wordlist table.
pub open spec fn entry_headers() -> Seq<Seq<char>> {
    seq!["ID"@, "FILENAME"@, "SIZE"@, "REPO"@, "CATEGORY"@, "PATH"@]
}

/// The column caps of the wordlist table; the ID column holds any `i64` in full.
pub open spec fn entry_caps() -> Seq<nat> {
    seq![20, 38, 9, 15, 32, usize::MAX as nat]
}

/// The cells of a wordlist's table row.
pub open spec fn entry_cells(e: WordlistEntry) -> Seq<Seq<char>> {
    seq![
        int_dec(match e.id {
            Some(i) => i as int,
            None => 0,
        }),
        e.filename@,
        size_text(e.size_bytes as int),
        opt_or(e.source_repo, "."@),
        opt_or(e.category, "."@),
        e.path@,
    ]
}

/// The paths of the entries.
pub open spec fn entry_paths(entries: Seq<WordlistEntry>) -> Seq<Seq<char>> {
    entries.map_values(|e: WordlistEntry| e.path@)
}

/// What `render_entries` prints: the paths one per line, or a table; JSON is left to the caller.
pub open spec fn entries_text(entries: Seq<WordlistEntry>, mode: OutputMode, term_width: nat) -> Option<Seq<char>> {
    match mode {
        OutputMode::Plain => Some(lines_text(entry_paths(entries))),
        OutputMode::Json => None,
        OutputMode::Table => Some(
            table_text(
                entry_headers(),
                entries.map_values(|e: WordlistEntry| entry_cells(e)),
                entry_caps(),
                term_width,
            ),
        ),
    }
}

/// Ten to the power `k`.
pub open spec fn ten_pow(k: nat) -> nat
    decreases k,
{
    if k == 0 {
        1
    } else {
        10 * ten_pow((k - 1) as nat)
    }
}

/// A number below 10^k has at most k digits.
proof fn lemma_dec_short(n: nat, k: nat)
    requires
        1 <= k,
        n < ten_pow(k),
    ensures
        dec(n).len() <= k,
    decreases k,
{
    if n >= 10 {
        let t = ten_pow((k - 1) as nat);
        if k == 1 {
            assert(ten_pow(0) == 1);
            assert(false);
        }
        assert(n / 10 < t) by (nonlinear_arith)
            requires
                n < 10 * t,
        ;
        lemma_dec_short(n / 10, (k - 1) as nat);
    }
}

/// Decimal digits are ASCII.
proof fn lemma_dec_ascii(n: nat)
    ensures
        vstd::utf8::is_ascii_chars(dec(n)),
    decreases n,
{
    assert(forall|d: int| 0 <= d < 10 ==> '\0' <= #[trigger] crate::text::digit_chars()[d] <= '\u{7f}');
    if n >= 10 {
        lemma_dec_ascii(n / 10);
        let p = dec(n / 10);
        assert(dec(n) == p.push(crate::text::digit_chars()[(n % 10) as int]));
        assert forall|i: int| 0 <= i < dec(n).len() implies '\0' <= #[trigger] dec(n)[i] <= '\u{7f}' by {
            if i < p.len() {
                assert(dec(n)[i] == p[i]);
            }
        }
    }
}

/// The decimal text of an `i64` is ASCII and at most 20 characters long.
proof fn lemma_i64_dec(x: i64)
    ensures
        vstd::utf8::is_ascii_chars(int_dec(x as int)),
        int_dec(x as int).len() <= 20,
        byte_len(int_dec(x as int)) as nat == int_dec(x as int).len(),
{
    assert(ten_pow(19) == 10000000000000000000nat) by {
        reveal_with_fuel(ten_pow, 20);
    }
    let m: nat = if x < 0 {
        (-(x as int)) as nat
    } else {
        x as nat
    };
    lemma_dec_short(m, 19);
    lemma_dec_ascii(m);
    let s = int_dec(x as int);
    if x < 0 {
        assert forall|i: int| 0 <= i < s.len() implies '\0' <= #[trigger] s[i] <= '\u{7f}' by {
            if i > 0 {
                assert(s[i] == dec(m)[i - 1]);
            }
        }
    }
    vstd::utf8::is_ascii_chars_encode_utf8(s);
}

/// A column is at least as wide as any of its cells, up to its cap.
proof fn lemma_content_width_ge(header: Seq<char>, rows: Seq<Seq<Seq<char>>>, i: int, cap: nat, k: int)
    requires
        0 <= k < rows.len(),
        0 <= i < rows[k].len(),
    ensures
        content_width(header, rows, i, cap) >= min_nat(byte_len(rows[k][i]) as nat, cap),
    decreases rows.len(),
{
    if k < rows.len() - 1 {
        lemma_content_width_ge(header, rows.drop_last(), i, cap, k);
        assert(rows.drop_last()[k] == rows[k]);
    }
}

/// The cells before position `k` make the beginning of a line.
proof fn lemma_line_text_prefix(cells: Seq<Seq<char>>, widths: Seq<nat>, n: nat, cut: bool, k: int)
    requires
        0 <= k <= cells.len(),
    ensures
        line_text(cells.take(k), widths, n, cut).len() <= line_text(cells, widths, n, cut).len(),
        line_text(cells, widths, n, cut).take(line_text(cells.take(k), widths, n, cut).len() as int)
            == line_text(cells.take(k), widths, n, cut),
    decreases cells.len(),
{
    let p = line_text(cells.take(k), widths, n, cut);
    let full = line_text(cells, widths, n, cut);
    if k == cells.len() {
        assert(cells.take(k) =~= cells);
        assert(full.take(full.len() as int) =~= full);
    } else {
        let front = cells.drop_last();
        lemma_line_text_prefix(front, widths, n, cut, k);
        assert(front.take(k) =~= cells.take(k));
        let lf = line_text(front, widths, n, cut);
        assert(full.take(p.len() as int) =~= lf.take(p.len() as int));
    }
}

/// In the wordlist table the ID column is wide enough for every id: the line of each
/// wordlist begins with its full id, followed by two spaces.
pub proof fn law_table_line_starts_with_id(entries: Seq<WordlistEntry>, term_width: nat, k: int)
    requires
        0 <= k < entries.len(),
    ensures
        ({
            let rows = entries.map_values(|e: WordlistEntry| entry_cells(e));
            let w = table_widths(entry_headers(), rows, entry_caps(), term_width);
            let id = entry_cells(entries[k])[0];
            &&& id == int_dec(
                match entries[k].id {
                    Some(i) => i as int,
                    None => 0,
                },
            )
            &&& line_text(rows[k], w, 6, true).take(id.len() + 2int) == id + "  "@
        }),
{
    let rows = entries.map_values(|e: WordlistEntry| entry_cells(e));
    let headers = entry_headers();
    let caps = entry_caps();
    let w = table_widths(headers, rows, caps, term_width);
    let x: i64 = match entries[k].id {
        Some(i) => i,
        None => 0,
    };
    let cells = rows[k];
    let id = cells[0];
    assert(id == int_dec(x as int));
    lemma_i64_dec(x);
    lemma_content_width_ge(headers[0], rows, 0, caps[0], k);
    let w0 = w[0];
    assert(w0 == content_width(headers[0], rows, 0, caps[0]));
    assert(id.len() <= w0);
    law_truncated_fits(id, w0);
    lemma_line_text_prefix(cells, w, 6, true, 1);
    let first = cells.take(1);
    assert(first.drop_last() =~= Seq::<Seq<char>>::empty());
    assert(first.last() == id);
    let p = line_text(first, w, 6, true);
    assert(p == line_text(first.drop_last(), w, 6, true) + cell_text(truncated(id, w0), w0, false));
    assert(p =~= pad_right(id, w0) + "  "@);
    reveal_strlit("  ");
    assert(p.take(id.len() + 2int) =~= id + "  "@);
    let full = line_text(cells, w, 6, true);
    assert(full.take(id.len() + 2int) =~= p.take(id.len() + 2int));
}

/// A vector of strings from string literals.
pub(crate) fn strings(parts: &[&str]) -> (r: Vec<String>)
    ensures
        views(r@) == parts@.map_values(|p: &str| p@),
{
    let mut out: Vec<String> = Vec::new();
    let mut i: usize = 0;
    while i < parts.len()
        invariant
            i <= parts@.len(),
            views(out@) == parts@.take(i as int).map_values(|p: &str| p@),
        decreases parts@.len() - i,
    {
        let ghost before = out@;
        out.push(parts[i].to_owned());
        i = i + 1;
        assert(views(out@) =~= views(before).push(parts@[i - 1]@));
        assert(parts@.take(i as int).map_values(|p: &str| p@) =~= parts@.take(i - 1).map_values(|p: &str| p@).push(parts@[i - 1]@));
    }
    assert(parts@.take(i as int) =~= parts@);
    out
}

/// The paths of the entries, one per line.
fn paths_text(entries: &Vec<WordlistEntry>) -> (r: String)
    ensures
        r@ == lines_text(entry_paths(entries@)),
{
    let mut s = String::new();
    let mut i: usize = 0;
    while i < entries.len()
        invariant
            i <= entries@.len(),
            s@ == lines_text(entry_paths(entries@.take(i as int))),
        decreases entries@.len() - i,
    {
        assert(entry_paths(entries@.take(i + 1)) =~= entry_paths(entries@.take(i as int)).push(entries@[i as int].path@));
        push_line_text(&mut s, entries[i].path.as_str(), Ghost(entry_paths(entries@.take(i as int))));
        i = i + 1;
    }
    assert(entries@.take(i as int) =~= entries@);
    s
}

/// Renders wordlists: their paths one per line, or a table with id, name, size, repository,
/// category and path. JSON output is the caller's (see `json_entries`).
pub fn render_entries(entries: &Vec<WordlistEntry>, mode: OutputMode, term_width: usize) -> (r: Option<String>)
    ensures
        match r {
            Some(t) => entries_text(entries@, mode, term_width as nat) == Some(t@),
            None => entries_text(entries@, mode, term_width as nat) is None,
        },
{
    match mode {
        OutputMode::Plain => Some(paths_text(entries)),
        OutputMode::Json => None,
        OutputMode::Table => {
            let headers = strings(&["ID", "FILENAME", "SIZE", "REPO", "CATEGORY", "PATH"]);
            assert(views(headers@) =~= entry_headers());
            let mut rows: Vec<Vec<String>> = Vec::new();
            let mut i: usize = 0;
            while i < entries.len()
                invariant
                    i <= entries@.len(),
                    rows_views(rows@) == entries@.take(i as int).map_values(|e: WordlistEntry| entry_cells(e)),
                    forall|k: int| 0 <= k < rows@.len() ==> (#[trigger] rows@[k])@.len() == 6,
                decreases entries@.len() - i,
            {
                let e = &entries[i];
                let id_text = crate::text::i64_to_dec(match e.id {
                    Some(x) => x,
                    None => 0,
                });
                let cells = vec![
                    id_text,
                    e.filename.clone(),
                    format_size(e.size_bytes),
                    opt_or_exec(&e.source_repo, "."),
                    opt_or_exec(&e.category, "."),
                    e.path.clone(),
                ];
                assert(views(cells@) =~= entry_cells(*e));
                let ghost before = rows@;
                rows.push(cells);
                i = i + 1;
                assert(rows_views(rows@) =~= rows_views(before).push(views(rows@[i - 1]@)));
                assert(rows_views(rows@) =~= entries@.take(i as int).map_values(|e: WordlistEntry| entry_cells(e)));
            }
            assert(entries@.take(i as int) =~= entries@);
            let caps = vec![20usize, 38, 9, 15, 32, usize::MAX];
            assert(caps_view(caps@) =~= entry_caps());
            proof {
                lemma_small_table(views(headers@), rows_views(rows@), caps_view(caps@));
            }
            Some(format_table(&headers, &rows, &caps, term_width))
        },
    }
}

/// The fields of a wordlist that JSON output shows.
#[derive(Clone, PartialEq, Eq, Debug)]
pub struct JsonEntry {
    pub filename: String,
    pub path: String,
    pub repo: String,
    pub size_bytes: i64,
}

/// The JSON records of wordlists: file name, path, repository ("unknown" when there is none)
/// and size.
pub fn json_entries(entries: &Vec<WordlistEntry>) -> (r: Vec<JsonEntry>)
    ensures
        r@.len() == entries@.len(),
        forall|i: int|
            0 <= i < r@.len() ==> (#[trigger] r@[i]).filename@ == entries@[i].filename@ && r@[i].path@
                == entries@[i].path@ && r@[i].repo@ == opt_or(entries@[i].source_repo, "unknown"@)
                && r@[i].size_bytes == entries@[i].size_bytes,
{
    let mut out: Vec<JsonEntry> = Vec::new();
    let mut i: usize = 0;
    while i < entries.len()
        invariant
            i <= entries@.len(),
            out@.len() == i,
            forall|k: int|
                0 <= k < i ==> (#[trigger] out@[k]).filename@ == entries@[k].filename@ && out@[k].path@
                    == entries@[k].path@ && out@[k].repo@ == opt_or(entries@[k].source_repo, "unknown"@)
                    && out@[k].size_bytes == entries@[k].size_bytes,
        decreases entries@.len() - i,
    {
        let e = &entries[i];
        out.push(
            JsonEntry {
                filename: e.filename.clone(),
                path: e.path.clone(),
                repo: opt_or_exec(&e.source_repo, "unknown"),
                size_bytes: e.size_bytes,
            },
        );
        i = i + 1;
    }
    out
}

/// The column titles of the fuzzy results table.
pub open spec fn fuzzy_headers() -> Seq<Seq<char>> {
    seq!["SCORE"@, "FILENAME"@, "REPO"@, "PATH"@]
}

/// The column caps of the fuzzy results table.
pub open spec fn fuzzy_caps() -> Seq<nat> {
    seq![6, 38, 15, usize::MAX as nat]
}

/// The cells of a fuzzy result's table row.
pub open spec fn fuzzy_cells(r: FuzzyResult) -> Seq<Seq<char>> {
    seq![int_dec(r.score as int), r.filename@, r.repo@, r.path@]
}

/// What `render_fuzzy` prints: the paths one per line, or a table; JSON is left to the caller.
pub open spec fn fuzzy_text(results: Seq<FuzzyResult>, mode: OutputMode, term_width: nat) -> Option<Seq<char>> {
    match mode {
        OutputMode::Plain => Some(lines_text(results.map_values(|r: FuzzyResult| r.path@))),
        OutputMode::Json => None,
        OutputMode::Table => Some(
            table_text(
                fuzzy_headers(),
                results.map_values(|r: FuzzyResult| fuzzy_cells(r)),
                fuzzy_caps(),
                term_width,
            ),
        ),
    }
}

/// Renders fuzzy results: their paths one per line, or a table with score, name, repository
/// and path. JSON output is the caller's.
pub fn render_fuzzy(results: &Vec<FuzzyResult>, mode: OutputMode, term_width: usize) -> (r: Option<String>)
    ensures
        match r {
            Some(t) => fuzzy_text(results@, mode, term_width as nat) == Some(t@),
            None => fuzzy_text(results@, mode, term_width as nat) is None,
        },
{
    match mode {
        OutputMode::Plain => {
            let mut s = String::new();
            let mut i: usize = 0;
            while i < results.len()
                invariant
                    i <= results@.len(),
                    s@ == lines_text(results@.take(i as int).map_values(|r: FuzzyResult| r.path@)),
                decreases results@.len() - i,
            {
                assert(results@.take(i + 1).map_values(|r: FuzzyResult| r.path@) =~= results@.take(
                    i as int,
                ).map_values(|r: FuzzyResult| r.path@).push(results@[i as int].path@));
                push_line_text(
                    &mut s,
                    results[i].path.as_str(),
                    Ghost(results@.take(i as int).map_values(|r: FuzzyResult| r.path@)),
                );
                i = i + 1;
            }
            assert(results@.take(i as int) =~= results@);
            Some(s)
        },
        OutputMode::Json => None,
        OutputMode::Table => {
            let headers = strings(&["SCORE", "FILENAME", "REPO", "PATH"]);
            assert(views(headers@) =~= fuzzy_headers());
            let mut rows: Vec<Vec<String>> = Vec::new();
            let mut i: usize = 0;
            while i < results.len()
                invariant
                    i <= results@.len(),
                    rows_views(rows@) == results@.take(i as int).map_values(|r: FuzzyResult| fuzzy_cells(r)),
                    forall|k: int| 0 <= k < rows@.len() ==> (#[trigger] rows@[k])@.len() == 4,
                decreases results@.len() - i,
            {
                let f = &results[i];
                let cells = vec![
                    crate::text::i64_to_dec(f.score),
                    f.filename.clone(),
                    f.repo.clone(),
                    f.path.clone(),
                ];
                assert(views(cells@) =~= fuzzy_cells(*f));
                let ghost before = rows@;
                rows.push(cells);
                i = i + 1;
                assert(rows_views(rows@) =~= rows_views(before).push(views(rows@[i - 1]@)));
                assert(rows_views(rows@) =~= results@.take(i as int).map_values(|r: FuzzyResult| fuzzy_cells(r)));
            }
            assert(results@.take(i as int) =~= results@);
            let caps = vec![6usize, 38, 15, usize::MAX];
            assert(caps_view(caps@) =~= fuzzy_caps());
            proof {
                lemma_small_table(views(headers@), rows_views(rows@), caps_view(caps@));
            }
            Some(format_table(&headers, &rows, &caps, term_width))
        },
    }
}

} // verus!
