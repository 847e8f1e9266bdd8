//! The tagged-comment grammar: a configuration line carries keybinding
//! metadata when, after its leading whitespace, it opens with `##` and the
//! rest of the line splits as `group // description // keys ##`, greedily
//! from the left (each field takes as much text as it can), with anything
//! after the closing `##` ignored. Lines not of this shape are ordinary
//! configuration directives and yield nothing.

use vstd::prelude::*;

use crate::chars::{is_space, is_space_char, str_chars};

verus! {

/// The position of the first newline in `s`.
pub open spec fn first_nl(s: Seq<char>) -> Option<int>
    decreases s.len(),
{
    if s.len() == 0 {
        None
    } else if s[0] == '\n' {
        Some(0)
    } else {
        match first_nl(s.skip(1)) {
            None => None,
            Some(j) => Some(j + 1),
        }
    }
}

/// The lines of `s`: the segments between newlines, including a final
/// (possibly empty) segment after the last newline.
pub open spec fn split_lines(s: Seq<char>) -> Seq<Seq<char>>
    decreases s.len(),
    via split_lines_decreases
{
    match first_nl(s) {
        None => seq![s],
        Some(k) => seq![s.take(k)] + split_lines(s.skip(k + 1)),
    }
}

#[via_fn]
proof fn split_lines_decreases(s: Seq<char>) {
    lemma_first_nl(s);
}

/// The number of leading whitespace characters of `s`.
pub open spec fn ws_prefix(s: Seq<char>) -> int
    decreases s.len(),
{
    if s.len() == 0 || !is_space(s[0]) {
        0
    } else {
        1 + ws_prefix(s.skip(1))
    }
}

/// The position just after the last non-whitespace character of `s`.
pub open spec fn ws_trunc(s: Seq<char>) -> int
    decreases s.len(),
{
    if s.len() == 0 || !is_space(s.last()) {
        s.len() as int
    } else {
        ws_trunc(s.drop_last())
    }
}

/// `s` with surrounding whitespace removed.
pub open spec fn trimmed(s: Seq<char>) -> Seq<char> {
    if ws_prefix(s) >= ws_trunc(s) {
        Seq::empty()
    } else {
        s.subrange(ws_prefix(s), ws_trunc(s))
    }
}

/// The last position `j <= from` where the two-character pattern `c0 c1`
/// occurs in `s`.
pub open spec fn rfind2(s: Seq<char>, c0: char, c1: char, from: int) -> Option<int>
    decreases from + 1,
{
    if from < 0 {
        None
    } else if from + 1 < s.len() && s[from] == c0 && s[from + 1] == c1 {
        Some(from)
    } else {
        rfind2(s, c0, c1, from - 1)
    }
}

/// The metadata carried by one configuration line, if any: after leading
/// whitespace the line must open with `##`; in the rest, the closing `##`
/// is the last one, the second delimiter is the last `//` before it, the
/// first delimiter the last `//` before that, and the three fields in
/// between are kept with their surrounding whitespace removed.
pub open spec fn line_entry(line: Seq<char>) -> Option<(Seq<char>, Seq<char>, Seq<char>)> {
    let w = ws_prefix(line);
    if w + 2 > line.len() || line[w] != '#' || line[w + 1] != '#' {
        None
    } else {
        let c = line.skip(w + 2);
        match rfind2(c, '#', '#', c.len() - 2) {
            None => None,
            Some(q3) => match rfind2(c, '/', '/', q3 - 2) {
                None => None,
                Some(q2) => match rfind2(c, '/', '/', q2 - 2) {
                    None => None,
                    Some(p1) => Some(
                        (
                            trimmed(c.take(p1)),
                            trimmed(c.subrange(p1 + 2, q2)),
                            trimmed(c.subrange(q2 + 2, q3)),
                        ),
                    ),
                },
            },
        }
    }
}

/// The entries of a sequence of lines, in order of appearance.
pub open spec fn lines_entries(ls: Seq<Seq<char>>) -> Seq<(Seq<char>, Seq<char>, Seq<char>)>
    decreases ls.len(),
{
    if ls.len() == 0 {
        Seq::empty()
    } else {
        match line_entry(ls[0]) {
            None => lines_entries(ls.skip(1)),
            Some(e) => seq![e] + lines_entries(ls.skip(1)),
        }
    }
}

/// All entries of a configuration text, in order of appearance.
pub open spec fn config_entries(text: Seq<char>) -> Seq<(Seq<char>, Seq<char>, Seq<char>)> {
    lines_entries(split_lines(text))
}

/// Where the first newline is, nothing before it is one.
proof fn lemma_first_nl(s: Seq<char>)
    ensures
        first_nl(s) matches Some(k) ==> 0 <= k < s.len() && s[k] == '\n' && forall|j: int|
            0 <= j < k ==> s[j] != '\n',
        first_nl(s) is None ==> forall|j: int| 0 <= j < s.len() ==> s[j] != '\n',
    decreases s.len(),
{
    if s.len() == 0 {
    } else if s[0] == '\n' {
    } else {
        lemma_first_nl(s.skip(1));
        if first_nl(s.skip(1)) is Some {
            let j = first_nl(s.skip(1))->Some_0;
            assert forall|p: int| 0 <= p < j + 1 implies s[p] != '\n' by {
                if p > 0 {
                    assert(s.skip(1)[p - 1] != '\n');
                }
            }
        } else {
            assert forall|p: int| 0 <= p < s.len() implies s[p] != '\n' by {
                if p > 0 {
                    assert(s.skip(1)[p - 1] != '\n');
                }
            }
        }
    }
}

/// A position with only newlines-free text before it and a newline at it is
/// the first newline.
proof fn lemma_first_nl_at(s: Seq<char>, k: int)
    requires
        0 <= k < s.len(),
        s[k] == '\n',
        forall|j: int| 0 <= j < k ==> s[j] != '\n',
    ensures
        first_nl(s) == Some(k),
    decreases k,
{
    if k == 0 {
    } else {
        assert forall|j: int| 0 <= j < k - 1 implies s.skip(1)[j] != '\n' by {
            assert(s.skip(1)[j] == s[j + 1]);
        }
        assert(s.skip(1)[k - 1] == s[k]);
        lemma_first_nl_at(s.skip(1), k - 1);
    }
}

/// With no newline at all, `first_nl` finds none.
proof fn lemma_first_nl_none(s: Seq<char>)
    requires
        forall|j: int| 0 <= j < s.len() ==> s[j] != '\n',
    ensures
        first_nl(s) is None,
    decreases s.len(),
{
    if s.len() == 0 {
    } else {
        assert forall|j: int| 0 <= j < s.skip(1).len() implies s.skip(1)[j] != '\n' by {
            assert(s.skip(1)[j] == s[j + 1]);
        }
        lemma_first_nl_none(s.skip(1));
    }
}

/// A position preceded only by whitespace and not itself whitespace (or the
/// end) is exactly the whitespace prefix length.
proof fn lemma_ws_prefix_at(s: Seq<char>, k: int)
    requires
        0 <= k <= s.len(),
        forall|j: int| 0 <= j < k ==> is_space(s[j]),
        k < s.len() ==> !is_space(s[k]),
    ensures
        ws_prefix(s) == k,
    decreases k,
{
    if k == 0 {
    } else {
        assert(is_space(s[0]));
        assert forall|j: int| 0 <= j < k - 1 implies is_space(s.skip(1)[j]) by {
            assert(s.skip(1)[j] == s[j + 1]);
        }
        if k - 1 < s.skip(1).len() {
            assert(s.skip(1)[k - 1] == s[k]);
        }
        lemma_ws_prefix_at(s.skip(1), k - 1);
    }
}

/// A position followed only by whitespace and preceded by a non-whitespace
/// character (or the start) is exactly where trailing whitespace begins.
proof fn lemma_ws_trunc_at(s: Seq<char>, k: int)
    requires
        0 <= k <= s.len(),
        forall|j: int| k <= j < s.len() ==> is_space(s[j]),
        k > 0 ==> !is_space(s[k - 1]),
    ensures
        ws_trunc(s) == k,
    decreases s.len(),
{
    if k == s.len() {
        if s.len() > 0 {
            assert(!is_space(s.last()));
        }
    } else {
        assert(is_space(s.last()));
        assert forall|j: int| k <= j < s.drop_last().len() implies is_space(
            s.drop_last()[j],
        ) by {
            assert(s.drop_last()[j] == s[j]);
        }
        lemma_ws_trunc_at(s.drop_last(), k);
    }
}

/// The last occurrence of `c0 c1` at or before `from`, by downward scan.
fn rfind2_exec(s: &Vec<char>, c0: char, c1: char, from: usize) -> (r: Option<usize>)
    requires
        from + 2 <= s@.len(),
    ensures
        (match r {
            None => Option::<int>::None,
            Some(j) => Option::<int>::Some(j as int),
        }) == rfind2(s@, c0, c1, from as int),
        r matches Some(j) ==> j <= from,
{
    let n = s.len();
    let mut i: usize = from + 1;
    while i > 0
        invariant
            n == s@.len(),
            i <= from + 1,
            from + 2 <= s@.len(),
            rfind2(s@, c0, c1, from as int) == rfind2(s@, c0, c1, i - 1),
        decreases i,
    {
        let j = i - 1;
        if s[j] == c0 && s[j + 1] == c1 {
            return Some(j);
        }
        i -= 1;
    }
    None
}

/// The metadata of the line `text[ls..le)`, as owned, trimmed field texts.
fn extract_line(text: &str, v: &Vec<char>, ls: usize, le: usize) -> (r: Option<
    (String, String, String),
>)
    requires
        v@ == text@,
        ls <= le <= text@.len(),
    ensures
        r is Some <==> line_entry(text@.subrange(ls as int, le as int)) is Some,
        r matches Some(t) ==> line_entry(text@.subrange(ls as int, le as int)) == Some(
            (t.0@, t.1@, t.2@),
        ),
{
    let ghost line = text@.subrange(ls as int, le as int);
    // measure the leading whitespace
    let mut w: usize = ls;
    while w < le && is_space_char(v[w])
        invariant
            ls <= w <= le,
            le <= v@.len(),
            forall|j: int| ls <= j < w ==> is_space(v@[j]),
        decreases le - w,
    {
        w += 1;
    }
    proof {
        assert forall|j: int| 0 <= j < w - ls implies is_space(line[j]) by {
            assert(line[j] == v@[ls + j]);
        }
        if (w - ls) < line.len() {
            assert(line[w - ls] == v@[w as int]);
        }
        lemma_ws_prefix_at(line, w - ls);
    }
    // the line must open with the `##` marker
    if le - w < 2 || v[w] != '#' || v[w + 1] != '#' {
        proof {
            if le - w >= 2 {
                assert(line[w - ls] == v@[w as int]);
                assert(line[w - ls + 1] == v@[w + 1]);
            }
        }
        return None;
    }
    proof {
        assert(line[w - ls] == v@[w as int]);
        assert(line[w - ls + 1] == v@[w + 1]);
    }
    // the content after the opening marker
    let cs = w + 2;
    let ghost content = line.skip(w - ls + 2);
    let mut cv: Vec<char> = Vec::new();
    let mut k: usize = cs;
    while k < le
        invariant
            cs <= k <= le,
            le <= v@.len(),
            cv@ == v@.subrange(cs as int, k as int),
        decreases le - k,
    {
        cv.push(v[k]);
        proof {
            assert(v@.subrange(cs as int, k + 1) =~= v@.subrange(cs as int, k as int).push(
                v@[k as int],
            ));
        }
        k += 1;
    }
    proof {
        assert(cv@ =~= content);
    }
    // the closing marker is the last `##` of the content
    if cv.len() < 2 {
        return None;
    }
    let q3 = match rfind2_exec(&cv, '#', '#', cv.len() - 2) {
        None => {
            return None;
        },
        Some(q3) => q3,
    };
    // the second delimiter is the last `//` before it
    if q3 < 2 {
        proof {
            assert(rfind2(content, '/', '/', q3 - 2) is None);
        }
        return None;
    }
    let q2 = match rfind2_exec(&cv, '/', '/', q3 - 2) {
        None => {
            return None;
        },
        Some(q2) => q2,
    };
    // the first delimiter is the last `//` before that
    if q2 < 2 {
        proof {
            assert(rfind2(content, '/', '/', q2 - 2) is None);
        }
        return None;
    }
    let p1 = match rfind2_exec(&cv, '/', '/', q2 - 2) {
        None => {
            return None;
        },
        Some(p1) => p1,
    };
    let group = trimmed_substring(text, v, cs, cs + p1);
    let description = trimmed_substring(text, v, cs + p1 + 2, cs + q2);
    let keys = trimmed_substring(text, v, cs + q2 + 2, cs + q3);
    proof {
        assert(content.take(p1 as int) =~= v@.subrange(cs as int, cs + p1));
        assert(content.subrange(p1 + 2, q2 as int) =~= v@.subrange(cs + p1 + 2, cs + q2));
        assert(content.subrange(q2 + 2, q3 as int) =~= v@.subrange(cs + q2 + 2, cs + q3));
    }
    Some((group, description, keys))
}

/// The text of `text[lo..hi)` with surrounding whitespace removed, as an
/// owned string.
fn trimmed_substring(text: &str, v: &Vec<char>, lo: usize, hi: usize) -> (r: String)
    requires
        v@ == text@,
        lo <= hi <= text@.len(),
    ensures
        r@ == trimmed(text@.subrange(lo as int, hi as int)),
{
    let ghost s = text@.subrange(lo as int, hi as int);
    let mut a: usize = lo;
    while a < hi && is_space_char(v[a])
        invariant
            lo <= a <= hi,
            hi <= v@.len(),
            forall|j: int| lo <= j < a ==> is_space(v@[j]),
        decreases hi - a,
    {
        a += 1;
    }
    let mut b: usize = hi;
    while b > a && is_space_char(v[b - 1])
        invariant
            a <= b <= hi,
            hi <= v@.len(),
            forall|j: int| b <= j < hi ==> is_space(v@[j]),
        decreases b,
    {
        b -= 1;
    }
    proof {
        assert forall|j: int| 0 <= j < a - lo implies is_space(s[j]) by {
            assert(s[j] == v@[lo + j]);
        }
        if (a - lo) < s.len() {
            assert(s[a - lo] == v@[a as int]);
        }
        lemma_ws_prefix_at(s, a - lo);
        if a == b {
            // the scans met: the whole segment is whitespace
            assert(a == hi);
            assert forall|j: int| 0 <= j < s.len() implies is_space(s[j]) by {
                assert(s[j] == v@[lo + j]);
            }
            lemma_ws_trunc_at(s, 0);
        } else {
            assert forall|j: int| b - lo <= j < s.len() implies is_space(s[j]) by {
                assert(s[j] == v@[lo + j]);
            }
            assert(s[b - lo - 1] == v@[(b - 1) as int]);
            lemma_ws_trunc_at(s, b - lo);
        }
        assert(text@.subrange(a as int, b as int) =~= trimmed(s));
    }
    text.substring_char(a, b).to_owned()
}

/// All metadata entries of a configuration text, as owned, trimmed field
/// texts, in order of appearance.
pub fn extract_entries(text: &str) -> (r: Vec<(String, String, String)>)
    ensures
        r@.map_values(|t: (String, String, String)| (t.0@, t.1@, t.2@)) == config_entries(text@),
{
    let v = str_chars(text);
    let n = v.len();
    let mut out: Vec<(String, String, String)> = Vec::new();
    let mut ls: usize = 0;
    proof {
        assert(text@.skip(0) =~= text@);
        assert(out@.map_values(|t: (String, String, String)| (t.0@, t.1@, t.2@))
            + lines_entries(split_lines(text@)) =~= lines_entries(split_lines(text@)));
    }
    loop
        invariant
            v@ == text@,
            n == text@.len(),
            ls <= n,
            ls == 0 || text@[ls - 1] == '\n',
            config_entries(text@) == out@.map_values(|t: (String, String, String)| (t.0@, t.1@, t.2@))
                + lines_entries(split_lines(text@.skip(ls as int))),
        decreases n - ls,
    {
        // find the end of the current line
        let mut le: usize = ls;
        while le < n && v[le] != '\n'
            invariant
                ls <= le <= n,
                n == v@.len(),
                forall|j: int| ls <= j < le ==> v@[j] != '\n',
            decreases n - le,
        {
            le += 1;
        }
        let ghost rest = text@.skip(ls as int);
        let ghost line = text@.subrange(ls as int, le as int);
        proof {
            assert forall|j: int| 0 <= j < le - ls implies rest[j] != '\n' by {
                assert(rest[j] == v@[ls + j]);
            }
            assert(rest.take(le - ls) =~= line);
        }
        let entry = extract_line(text, &v, ls, le);
        let ghost e_view = (match entry {
            Option::None => Option::<(Seq<char>, Seq<char>, Seq<char>)>::None,
            Option::Some(ref t) => Option::Some((t.0@, t.1@, t.2@)),
        });
        let ghost prev_out = out@;
        match entry {
            None => (),
            Some(t) => {
                out.push(t);
            },
        }
        if le == n {
            proof {
                lemma_first_nl_none(rest);
                assert(rest =~= line);
                let lset = split_lines(rest);
                assert(lset == seq![rest]);
                assert(lset[0] == line);
                assert(lset.skip(1) =~= Seq::<Seq<char>>::empty());
                assert(lines_entries(lset.skip(1)) == Seq::<
                    (Seq<char>, Seq<char>, Seq<char>),
                >::empty());
                if line_entry(line) is Some {
                    let e = line_entry(line)->Some_0;
                    assert(lines_entries(lset) == seq![e] + lines_entries(lset.skip(1)));
                    assert(seq![e] + Seq::<(Seq<char>, Seq<char>, Seq<char>)>::empty()
                        =~= seq![e]);
                }
                match e_view {
                    None => {
                        assert(out@.map_values(
                            |t: (String, String, String)| (t.0@, t.1@, t.2@),
                        ) + Seq::<(Seq<char>, Seq<char>, Seq<char>)>::empty() =~= out@.map_values(
                            |t: (String, String, String)| (t.0@, t.1@, t.2@),
                        ));
                    },
                    Some(tv) => {
                        assert(prev_out.map_values(
                            |t: (String, String, String)| (t.0@, t.1@, t.2@),
                        ) + seq![tv] =~= out@.map_values(
                            |t: (String, String, String)| (t.0@, t.1@, t.2@),
                        ));
                    },
                }
            }
            return out;
        }
        proof {
            assert(rest[le - ls] == v@[le as int]);
            lemma_first_nl_at(rest, le - ls);
            assert(split_lines(rest) == seq![rest.take(le - ls)] + split_lines(
                rest.skip(le - ls + 1),
            ));
            assert(rest.skip(le - ls + 1) =~= text@.skip(le + 1));
            assert((seq![line] + split_lines(text@.skip(le + 1)))[0] == line);
            assert((seq![line] + split_lines(text@.skip(le + 1))).skip(1) =~= split_lines(
                text@.skip(le + 1),
            ));
            match e_view {
                None => {},
                Some(tv) => {
                    assert(prev_out.map_values(
                        |t: (String, String, String)| (t.0@, t.1@, t.2@),
                    ) + (seq![tv] + lines_entries(split_lines(text@.skip(le + 1))))
                        =~= out@.map_values(|t: (String, String, String)| (t.0@, t.1@, t.2@))
                        + lines_entries(split_lines(text@.skip(le + 1))));
                },
            }
        }
        ls = le + 1;
    }
}

} // verus!
