use vstd::prelude::*;
use vstd::string::{StrSliceExecFns, StringExecFns};
use crate::process::string_views;
use crate::text::{chars_of, decimal, digit_char};

verus! {

/// A named set of search settings, each kept as the text the user typed.
#[derive(Clone)]
pub struct Preset {
    pub name: String,
    pub max_price_to_search: String,
    pub min_quantity_to_search: String,
    pub price_to_offer: String,
    pub item_names: String,
}

// ---------------------------------------------------------------------------
// Lists, one entry per line
// ---------------------------------------------------------------------------

/// Whether `c` is white space in Unicode's sense (`char::is_whitespace`).
pub open spec fn is_white_space(c: char) -> bool {
    ||| ('\u{9}' <= c <= '\u{d}')
    ||| c == ' '
    ||| c == '\u{85}'
    ||| c == '\u{a0}'
    ||| c == '\u{1680}'
    ||| ('\u{2000}' <= c <= '\u{200a}')
    ||| c == '\u{2028}'
    ||| c == '\u{2029}'
    ||| c == '\u{202f}'
    ||| c == '\u{205f}'
    ||| c == '\u{3000}'
}

/// Whether `c` is white space in Unicode's sense.
pub fn is_white_space_char(c: char) -> (r: bool)
    ensures
        r == is_white_space(c),
{
    ('\u{9}' <= c && c <= '\u{d}') || c == ' ' || c == '\u{85}' || c == '\u{a0}' || c
        == '\u{1680}' || ('\u{2000}' <= c && c <= '\u{200a}') || c == '\u{2028}' || c
        == '\u{2029}' || c == '\u{202f}' || c == '\u{205f}' || c == '\u{3000}'
}

/// `s` without its leading white space.
pub open spec fn trim_start(s: Seq<char>) -> Seq<char>
    decreases s.len(),
{
    if s.len() > 0 && is_white_space(s[0]) {
        trim_start(s.drop_first())
    } else {
        s
    }
}

/// `s` without its trailing white space.
pub open spec fn trim_end(s: Seq<char>) -> Seq<char>
    decreases s.len(),
{
    if s.len() > 0 && is_white_space(s.last()) {
        trim_end(s.drop_last())
    } else {
        s
    }
}

/// `s` without white space at either end (`str::trim`).
pub open spec fn trimmed(s: Seq<char>) -> Seq<char> {
    trim_end(trim_start(s))
}

/// The lines of `s`: the pieces between line feeds (the last piece may be empty).
pub open spec fn lines_of(s: Seq<char>) -> Seq<Seq<char>>
    decreases s.len(),
{
    if s.len() == 0 {
        seq![seq![]]
    } else {
        let prev = lines_of(s.drop_last());
        if s.last() == '\n' {
            prev.push(seq![])
        } else {
            prev.update(prev.len() - 1, prev.last().push(s.last()))
        }
    }
}

/// The trimmed lines of `lines` that are not empty.
pub open spec fn entries_of_lines(lines: Seq<Seq<char>>) -> Seq<Seq<char>>
    decreases lines.len(),
{
    if lines.len() == 0 {
        seq![]
    } else {
        let prev = entries_of_lines(lines.drop_last());
        if trimmed(lines.last()).len() > 0 {
            prev.push(trimmed(lines.last()))
        } else {
            prev
        }
    }
}

/// The entries of a list written one per line: each line trimmed, empty
/// lines left out.
pub open spec fn entries_of(text: Seq<char>) -> Seq<Seq<char>> {
    entries_of_lines(lines_of(text))
}

proof fn lemma_lines_nonempty(s: Seq<char>)
    ensures
        lines_of(s).len() >= 1,
    decreases s.len(),
{
    if s.len() > 0 {
        lemma_lines_nonempty(s.drop_last());
    }
}

proof fn lemma_trim_start_skip(s: Seq<char>, a: int)
    requires
        0 <= a <= s.len(),
        forall|k: int| 0 <= k < a ==> is_white_space(#[trigger] s[k]),
        a == s.len() || !is_white_space(s[a]),
    ensures
        trim_start(s) == s.subrange(a, s.len() as int),
    decreases a,
{
    if a == 0 {
        assert(s.subrange(0, s.len() as int) =~= s);
    } else {
        assert forall|k: int| 0 <= k < a - 1 implies is_white_space(#[trigger] s.drop_first()[k]) by {
            assert(s.drop_first()[k] == s[k + 1]);
        }
        if a < s.len() {
            assert(s.drop_first()[a - 1] == s[a]);
        }
        lemma_trim_start_skip(s.drop_first(), a - 1);
        assert(s.drop_first().subrange(a - 1, s.len() - 1) =~= s.subrange(a, s.len() as int));
    }
}

proof fn lemma_trim_end_take(s: Seq<char>, b: int)
    requires
        0 <= b <= s.len(),
        forall|k: int| b <= k < s.len() ==> is_white_space(#[trigger] s[k]),
        b == 0 || !is_white_space(s[b - 1]),
    ensures
        trim_end(s) == s.subrange(0, b),
    decreases s.len() - b,
{
    if b == s.len() {
        assert(s.subrange(0, b) =~= s);
    } else {
        assert forall|k: int| b <= k < s.len() - 1 implies is_white_space(#[trigger] s.drop_last()[k]) by {
            assert(s.drop_last()[k] == s[k]);
        }
        if b > 0 {
            assert(s.drop_last()[b - 1] == s[b - 1]);
        }
        lemma_trim_end_take(s.drop_last(), b);
        assert(s.drop_last().subrange(0, b) =~= s.subrange(0, b));
    }
}

/// Appends the trimmed line `text[start..end]` to `entries` unless it is empty.
fn push_entry(text: &str, chars: &Vec<char>, start: usize, end: usize, entries: &mut Vec<String>)
    requires
        chars@ == text@,
        start <= end <= text@.len(),
    ensures
        string_views(final(entries)@) == if trimmed(text@.subrange(start as int, end as int)).len()
            > 0 {
            string_views(old(entries)@).push(trimmed(text@.subrange(start as int, end as int)))
        } else {
            string_views(old(entries)@)
        },
{
    let ghost line = text@.subrange(start as int, end as int);
    let mut a = start;
    while a < end && is_white_space_char(chars[a])
        invariant
            chars@ == text@,
            start <= a <= end <= text@.len(),
            forall|k: int| start <= k < a ==> is_white_space(#[trigger] text@[k]),
        decreases end - a,
    {
        a = a + 1;
    }
    let mut b = end;
    while b > a && is_white_space_char(chars[b - 1])
        invariant
            chars@ == text@,
            start <= a <= b <= end <= text@.len(),
            forall|k: int| b <= k < end ==> is_white_space(#[trigger] text@[k]),
        decreases b - a,
    {
        b = b - 1;
    }
    proof {
        let la = a - start;
        assert forall|k: int| 0 <= k < la implies is_white_space(#[trigger] line[k]) by {
            assert(line[k] == text@[start + k]);
        }
        if a < end {
            assert(line[la] == text@[a as int]);
        }
        lemma_trim_start_skip(line, la);
        let rest = line.subrange(la, line.len() as int);
        assert(rest =~= text@.subrange(a as int, end as int));
        let lb = b - a;
        assert forall|k: int| lb <= k < rest.len() implies is_white_space(#[trigger] rest[k]) by {
            assert(rest[k] == text@[a + k]);
        }
        if b > a {
            assert(rest[lb - 1] == text@[b - 1]);
        }
        lemma_trim_end_take(rest, lb);
        assert(rest.subrange(0, lb) =~= text@.subrange(a as int, b as int));
    }
    if a < b {
        let ghost old_entries = entries@;
        entries.push(String::from_str(text.substring_char(a, b)));
        assert(string_views(entries@) =~= string_views(old_entries).push(trimmed(line)));
    }
}

/// The entries of a list written one per line, as the settings hold the item
/// names, the ignored nicknames and the contacted order ids: each line
/// trimmed, empty lines left out.
pub fn setting_entries(text: &str) -> (res: Vec<String>)
    ensures
        string_views(res@) == entries_of(text@),
        string_views(res@) == lines_of(text@).map_values(trim_line()).filter(not_empty()),
        forall|i: int|
            0 <= i < res@.len() ==> (#[trigger] res@[i])@.len() > 0 && trimmed(res@[i]@) == res@[i]@,
{
    let chars = chars_of(text);
    let n = chars.len();
    let mut res: Vec<String> = Vec::new();
    let ghost mut done: Seq<Seq<char>> = seq![];
    let mut start: usize = 0;
    let mut i: usize = 0;
    assert(text@.take(0) =~= Seq::<char>::empty());
    assert(text@.subrange(0, 0) =~= Seq::<char>::empty());
    assert(lines_of(text@.take(0)) =~= seq![Seq::<char>::empty()]);
    while i < n
        invariant
            chars@ == text@,
            n == text@.len(),
            start <= i <= n,
            lines_of(text@.take(i as int)) == done.push(text@.subrange(start as int, i as int)),
            string_views(res@) == entries_of_lines(done),
        decreases n - i,
    {
        let ghost cur = text@.subrange(start as int, i as int);
        assert(text@.take(i + 1).drop_last() =~= text@.take(i as int));
        assert(text@.take(i + 1).last() == text@[i as int]);
        if chars[i] == '\n' {
            push_entry(text, &chars, start, i, &mut res);
            proof {
                assert(done.push(cur).drop_last() =~= done);
                done = done.push(cur);
                assert(text@.subrange(i + 1, i + 1) =~= Seq::<char>::empty());
            }
            start = i + 1;
        } else {
            proof {
                assert(text@.subrange(start as int, i + 1) =~= cur.push(text@[i as int]));
            }
        }
        i = i + 1;
    }
    push_entry(text, &chars, start, n, &mut res);
    proof {
        assert(text@.take(n as int) =~= text@);
        let cur = text@.subrange(start as int, n as int);
        assert(done.push(cur).drop_last() =~= done);
        lemma_entries_trimmed(lines_of(text@));
        assert(string_views(res@) == entries_of_lines(lines_of(text@)));
        law_entries_are_the_nonempty_trimmed_lines(text@);
        assert forall|i: int| 0 <= i < res@.len() implies (#[trigger] res@[i])@.len() > 0 && trimmed(
            res@[i]@,
        ) == res@[i]@ by {
            assert(string_views(res@)[i] == res@[i]@);
            assert(entries_of_lines(lines_of(text@))[i] == res@[i]@);
        }
    }
    res
}

proof fn lemma_trim_start_idem(s: Seq<char>)
    ensures
        trim_start(s).len() == 0 || !is_white_space(trim_start(s)[0]),
    decreases s.len(),
{
    if s.len() > 0 && is_white_space(s[0]) {
        lemma_trim_start_idem(s.drop_first());
    }
}

proof fn lemma_trim_end_keeps_start(s: Seq<char>)
    ensures
        trim_end(s).len() <= s.len(),
        forall|k: int| 0 <= k < trim_end(s).len() ==> trim_end(s)[k] == s[k],
        trim_end(s).len() == 0 || !is_white_space(trim_end(s).last()),
    decreases s.len(),
{
    if s.len() > 0 && is_white_space(s.last()) {
        lemma_trim_end_keeps_start(s.drop_last());
        assert forall|k: int| 0 <= k < trim_end(s).len() implies trim_end(s)[k] == s[k] by {
            assert(s.drop_last()[k] == s[k]);
        }
    }
}

proof fn lemma_trimmed_is_trimmed(s: Seq<char>)
    ensures
        trimmed(trimmed(s)) == trimmed(s),
{
    let t = trimmed(s);
    lemma_trim_start_idem(s);
    lemma_trim_end_keeps_start(trim_start(s));
    if t.len() > 0 {
        assert(t[0] == trim_start(s)[0]);
        lemma_trim_start_skip(t, 0);
        assert(t.subrange(0, t.len() as int) =~= t);
        lemma_trim_end_take(t, t.len() as int);
        assert(t.subrange(0, t.len() as int) =~= t);
    } else {
        assert(trim_start(t) == t);
    }
}

proof fn lemma_entries_trimmed(lines: Seq<Seq<char>>)
    ensures
        forall|i: int|
            0 <= i < entries_of_lines(lines).len() ==> (#[trigger] entries_of_lines(lines)[i]).len() > 0
                && trimmed(entries_of_lines(lines)[i]) == entries_of_lines(lines)[i],
    decreases lines.len(),
{
    if lines.len() > 0 {
        lemma_entries_trimmed(lines.drop_last());
        lemma_trimmed_is_trimmed(lines.last());
        let prev = entries_of_lines(lines.drop_last());
        if trimmed(lines.last()).len() > 0 {
            assert forall|i: int| 0 <= i < prev.push(trimmed(lines.last())).len() implies (
            #[trigger] prev.push(trimmed(lines.last()))[i]).len() > 0 && trimmed(
                prev.push(trimmed(lines.last()))[i],
            ) == prev.push(trimmed(lines.last()))[i] by {
                if i < prev.len() {
                    assert(prev.push(trimmed(lines.last()))[i] == prev[i]);
                }
            }
        }
    }
}

/// Whether a piece of text is not empty.
pub open spec fn not_empty() -> spec_fn(Seq<char>) -> bool {
    |t: Seq<char>| t.len() > 0
}

/// A line without white space at either end.
pub open spec fn trim_line() -> spec_fn(Seq<char>) -> Seq<char> {
    |l: Seq<char>| trimmed(l)
}

/// `lines` put back together, a line feed between each two.
pub open spec fn joined_lines(lines: Seq<Seq<char>>) -> Seq<char>
    decreases lines.len(),
{
    if lines.len() == 0 {
        seq![]
    } else if lines.len() == 1 {
        lines[0]
    } else {
        joined_lines(lines.drop_last()) + seq!['\n'] + lines.last()
    }
}

proof fn lemma_entries_filter(lines: Seq<Seq<char>>)
    ensures
        entries_of_lines(lines) == lines.map_values(trim_line()).filter(not_empty()),
    decreases lines.len(),
{
    reveal(Seq::filter);
    let m = lines.map_values(trim_line());
    if lines.len() > 0 {
        lemma_entries_filter(lines.drop_last());
        assert(m.drop_last() =~= lines.drop_last().map_values(trim_line()));
        assert(m.last() == trimmed(lines.last()));
        assert(not_empty()(m.last()) == (trimmed(lines.last()).len() > 0));
    } else {
        assert(m =~= Seq::<Seq<char>>::empty());
    }
}

proof fn lemma_joined_extend_last(ls: Seq<Seq<char>>, c: char)
    requires
        ls.len() >= 1,
    ensures
        joined_lines(ls.update(ls.len() - 1, ls.last().push(c))) == joined_lines(ls).push(c),
{
    let u = ls.update(ls.len() - 1, ls.last().push(c));
    if ls.len() > 1 {
        assert(u.drop_last() =~= ls.drop_last());
        assert(u.last() == ls.last().push(c));
        assert(joined_lines(ls.drop_last()) + seq!['\n'] + ls.last().push(c) =~= (joined_lines(
            ls.drop_last(),
        ) + seq!['\n'] + ls.last()).push(c));
    }
}

/// Law: the lines of a text hold no line feed, and put back together with a
/// line feed between each two they give the text again. So the lines are the
/// pieces of the text between its line feeds, none lost and none added.
pub proof fn law_lines_are_the_pieces_between_line_feeds(text: Seq<char>)
    ensures
        forall|k: int| 0 <= k < lines_of(text).len() ==> !(#[trigger] lines_of(text)[k]).contains('\n'),
        joined_lines(lines_of(text)) == text,
    decreases text.len(),
{
    if text.len() == 0 {
        assert(lines_of(text)[0] =~= Seq::<char>::empty());
        assert(text =~= Seq::<char>::empty());
    } else {
        let prev = lines_of(text.drop_last());
        law_lines_are_the_pieces_between_line_feeds(text.drop_last());
        lemma_lines_nonempty(text.drop_last());
        let now = lines_of(text);
        if text.last() == '\n' {
            assert(now.drop_last() =~= prev);
            assert(now.last() =~= Seq::<char>::empty());
            assert(joined_lines(now) == joined_lines(prev) + seq!['\n'] + now.last());
            assert(text.drop_last() + seq!['\n'] + Seq::<char>::empty() =~= text);
            assert forall|k: int| 0 <= k < now.len() implies !(#[trigger] now[k]).contains('\n') by {
                if k < prev.len() {
                    assert(now[k] == prev[k]);
                }
            }
        } else {
            lemma_joined_extend_last(prev, text.last());
            assert(text.drop_last().push(text.last()) =~= text);
            assert forall|k: int| 0 <= k < now.len() implies !(#[trigger] now[k]).contains('\n') by {
                if k < prev.len() - 1 {
                    assert(now[k] == prev[k]);
                } else {
                    let l = prev.last().push(text.last());
                    assert(now[k] == l);
                    assert(!prev[prev.len() - 1].contains('\n'));
                    if l.contains('\n') {
                        let j = choose|j: int| 0 <= j < l.len() && l[j] == '\n';
                        assert(prev.last()[j] == l[j]);
                    }
                }
            }
        }
    }
}

/// Law: the entries of a list written one per line are its lines, each
/// trimmed, with the empty ones left out. Every line whose trimmed text is
/// not empty gives exactly one entry, in order, however many lines there are.
pub proof fn law_entries_are_the_nonempty_trimmed_lines(text: Seq<char>)
    ensures
        entries_of(text) == lines_of(text).map_values(trim_line()).filter(not_empty()),
{
    lemma_entries_filter(lines_of(text));
}

proof fn lemma_trim_start_shape(s: Seq<char>) -> (a: int)
    ensures
        0 <= a <= s.len(),
        trim_start(s) == s.subrange(a, s.len() as int),
        forall|k: int| 0 <= k < a ==> is_white_space(#[trigger] s[k]),
    decreases s.len(),
{
    if s.len() > 0 && is_white_space(s[0]) {
        let t = s.drop_first();
        let a1 = lemma_trim_start_shape(t);
        assert(t.subrange(a1, t.len() as int) =~= s.subrange(a1 + 1, s.len() as int));
        assert forall|k: int| 0 <= k < a1 + 1 implies is_white_space(#[trigger] s[k]) by {
            if k > 0 {
                assert(s[k] == t[k - 1]);
            }
        }
        a1 + 1
    } else {
        assert(s.subrange(0, s.len() as int) =~= s);
        0
    }
}

proof fn lemma_trim_end_shape(s: Seq<char>) -> (b: int)
    ensures
        0 <= b <= s.len(),
        trim_end(s) == s.subrange(0, b),
        forall|k: int| b <= k < s.len() ==> is_white_space(#[trigger] s[k]),
    decreases s.len(),
{
    if s.len() > 0 && is_white_space(s.last()) {
        let t = s.drop_last();
        let b1 = lemma_trim_end_shape(t);
        assert(t.subrange(0, b1) =~= s.subrange(0, b1));
        assert forall|k: int| b1 <= k < s.len() implies is_white_space(#[trigger] s[k]) by {
            if k < s.len() - 1 {
                assert(s[k] == t[k]);
            }
        }
        b1
    } else {
        assert(s.subrange(0, s.len() as int) =~= s);
        s.len() as int
    }
}

/// Law: trimming takes away the white space at both ends of a text and
/// nothing else. The trimmed text is a piece of the text with only white
/// space before and after it, and it neither starts nor ends with white space.
pub proof fn law_trim_removes_only_surrounding_white_space(s: Seq<char>)
    ensures
        exists|a: int, b: int|
            #![trigger s.subrange(a, b)]
            0 <= a <= b <= s.len() && trimmed(s) == s.subrange(a, b) && (forall|k: int|
                0 <= k < a ==> is_white_space(#[trigger] s[k])) && (forall|k: int|
                b <= k < s.len() ==> is_white_space(#[trigger] s[k])),
        trimmed(s).len() == 0 || (!is_white_space(trimmed(s)[0]) && !is_white_space(
            trimmed(s).last(),
        )),
{
    let a = lemma_trim_start_shape(s);
    let t = trim_start(s);
    let b = lemma_trim_end_shape(t);
    assert(t.subrange(0, b) =~= s.subrange(a, a + b));
    assert forall|k: int| a + b <= k < s.len() implies is_white_space(#[trigger] s[k]) by {
        assert(s[k] == t[k - a]);
    }
    assert(trimmed(s) == s.subrange(a, a + b));
    lemma_trim_start_idem(s);
    lemma_trim_end_keeps_start(t);
    if trimmed(s).len() > 0 {
        assert(trimmed(s)[0] == t[0]);
    }
}

// ---------------------------------------------------------------------------
// Numbers
// ---------------------------------------------------------------------------

/// Whether `c` is an ASCII decimal digit.
pub open spec fn is_digit(c: char) -> bool {
    '0' <= c <= '9'
}

/// The value of the digit `c`.
pub open spec fn digit_value(c: char) -> nat {
    (c as int - 48) as nat
}

/// The value of the decimal digits `s`.
pub open spec fn digits_value(s: Seq<char>) -> nat
    decreases s.len(),
{
    if s.len() == 0 {
        0
    } else {
        digits_value(s.drop_last()) * 10 + digit_value(s.last())
    }
}

/// `s` without one leading `+`.
pub open spec fn unsigned_part(s: Seq<char>) -> Seq<char> {
    if s.len() > 0 && s[0] == '+' {
        s.drop_first()
    } else {
        s
    }
}

/// What `s.parse::<u32>()` accepts: an optional `+` followed by at least one
/// decimal digit, with a value that fits in `u32`.
pub open spec fn parsed_u32(s: Seq<char>) -> Option<u32> {
    let body = unsigned_part(s);
    if body.len() > 0 && (forall|i: int| 0 <= i < body.len() ==> is_digit(#[trigger] body[i]))
        && digits_value(body) <= u32::MAX {
        Some(digits_value(body) as u32)
    } else {
        None
    }
}

proof fn lemma_digits_value_prefix(s: Seq<char>, k: int)
    requires
        0 <= k <= s.len(),
    ensures
        digits_value(s.take(k)) <= digits_value(s),
    decreases s.len() - k,
{
    if k < s.len() {
        assert(s.drop_last().take(k) =~= s.take(k));
        lemma_digits_value_prefix(s.drop_last(), k);
    } else {
        assert(s.take(k) =~= s);
    }
}

/// Reads a number as `s.parse::<u32>()` does.
pub fn parse_u32(s: &str) -> (r: Option<u32>)
    ensures
        r == parsed_u32(s@),
{
    let chars = chars_of(s);
    let n = chars.len();
    let mut i: usize = 0;
    if n > 0 && chars[0] == '+' {
        i = 1;
    }
    let ghost start = i as int;
    let ghost body = unsigned_part(s@);
    assert(body =~= s@.subrange(start, n as int));
    if i == n {
        return None;
    }
    let mut value: u32 = 0;
    assert(body.take(0) =~= Seq::<char>::empty());
    while i < n
        invariant
            chars@ == s@,
            n == s@.len(),
            0 <= start <= 1,
            start <= i <= n,
            body == s@.subrange(start, n as int),
            body == unsigned_part(s@),
            value == digits_value(body.take(i - start)),
            forall|k: int| 0 <= k < i - start ==> is_digit(#[trigger] body[k]),
        decreases n - i,
    {
        let c = chars[i];
        assert(body[i - start] == c);
        if !('0' <= c && c <= '9') {
            assert(!is_digit(body[i - start]));
            return None;
        }
        let d = (c as u32) - 48;
        assert(body.take(i - start + 1).drop_last() =~= body.take(i - start));
        assert(digits_value(body.take(i - start + 1)) == value * 10 + d);
        proof {
            lemma_digits_value_prefix(body, i - start + 1);
        }
        match value.checked_mul(10) {
            Some(v) => match v.checked_add(d) {
                Some(w) => {
                    value = w;
                },
                None => {
                    assert(digits_value(body) > u32::MAX);
                    return None;
                },
            },
            None => {
                assert(digits_value(body) > u32::MAX);
                return None;
            },
        }
        i = i + 1;
    }
    assert(body.take(body.len() as int) =~= body);
    Some(value)
}

/// A number from the settings, as the search reads it: the value of `s`, or 0
/// when `s` does not hold a number (`s.parse::<u32>().unwrap_or_default()`).
pub fn parse_setting_u32(s: &str) -> (r: u32)
    ensures
        r == match parsed_u32(s@) {
            Some(v) => v,
            None => 0,
        },
{
    match parse_u32(s) {
        Some(v) => v,
        None => 0,
    }
}

proof fn lemma_decimal_digits(n: nat)
    ensures
        decimal(n).len() > 0,
        forall|i: int| 0 <= i < decimal(n).len() ==> is_digit(#[trigger] decimal(n)[i]),
        digits_value(decimal(n)) == n,
    decreases n,
{
    if n < 10 {
        assert(seq![digit_char(n)].drop_last() =~= Seq::<char>::empty());
        assert(digit_value(digit_char(n)) == n);
        assert(decimal(n) == seq![digit_char(n)]);
        assert(digits_value(seq![digit_char(n)]) == digits_value(Seq::<char>::empty()) * 10
            + digit_value(digit_char(n)));
    } else {
        lemma_decimal_digits(n / 10);
        let prev = decimal(n / 10);
        assert(prev.push(digit_char(n % 10)).drop_last() =~= prev);
        assert(digit_value(digit_char(n % 10)) == n % 10);
        assert(n == (n / 10) * 10 + n % 10);
        assert(decimal(n) == prev.push(digit_char(n % 10)));
        assert(digits_value(prev.push(digit_char(n % 10))) == digits_value(prev) * 10 + digit_value(
            digit_char(n % 10),
        ));
        assert forall|i: int| 0 <= i < decimal(n).len() implies is_digit(#[trigger] decimal(n)[i]) by {
            if i < prev.len() {
                assert(decimal(n)[i] == prev[i]);
            }
        }
    }
}

/// Law: a number written out in decimal reads back as the same number. The
/// settings store each number as the text of its value and read it back this
/// way.
pub proof fn law_decimal_reads_back(n: u32)
    ensures
        parsed_u32(decimal(n as nat)) == Some(n),
{
    lemma_decimal_digits(n as nat);
    let d = decimal(n as nat);
    assert(is_digit(d[0]));
    assert(unsigned_part(d) == d);
}

} // verus!
