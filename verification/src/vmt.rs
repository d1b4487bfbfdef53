//! Parser for text material descriptors: line-oriented `$key value`
//! entries, optionally quoted, whose keys are matched case-insensitively
//! against a fixed set of texture-bearing keys.

use vstd::prelude::*;
use vstd::string::StringExecFns;

use crate::strutil::{
    exec_is_space, exec_is_word_char, exec_lower_char, is_space, is_word_char, lower_char,
    push_char, vec_has_string, chars_of_str, string_of_chars, seq_has_string,
};

verus! {

/// The texture references a material descriptor holds, deduplicated.
pub struct VMT {
    pub textures: Vec<String>,
}

/// The first index at or after `i` (up to `end`) that does not hold a word
/// character.
pub open spec fn word_end(s: Seq<char>, i: int, end: int) -> int
    decreases end - i,
{
    if i >= end || !is_word_char(s[i]) {
        i
    } else {
        word_end(s, i + 1, end)
    }
}

/// The first index at or after `i` (up to `end`) that does not hold
/// whitespace.
pub open spec fn adv_space(s: Seq<char>, i: int, end: int) -> int
    decreases end - i,
{
    if i >= end || !is_space(s[i]) {
        i
    } else {
        adv_space(s, i + 1, end)
    }
}

/// The position after dropping trailing whitespace from `[i, j)`.
pub open spec fn ret_space(s: Seq<char>, i: int, j: int) -> int
    decreases j - i,
{
    if j <= i || !is_space(s[j - 1]) {
        j
    } else {
        ret_space(s, i, j - 1)
    }
}

/// The first index at or after `i` (up to `end`) that does not hold a
/// double quote.
pub open spec fn adv_quote(s: Seq<char>, i: int, end: int) -> int
    decreases end - i,
{
    if i >= end || s[i] != '"' {
        i
    } else {
        adv_quote(s, i + 1, end)
    }
}

/// The position after dropping trailing double quotes from `[i, j)`.
pub open spec fn ret_quote(s: Seq<char>, i: int, j: int) -> int
    decreases j - i,
{
    if j <= i || s[j - 1] != '"' {
        j
    } else {
        ret_quote(s, i, j - 1)
    }
}

/// A raw value cleaned the way the reference entries are: surrounding
/// whitespace dropped, then surrounding quotes, then whitespace again.
pub open spec fn cleaned_value(s: Seq<char>, a: int, b: int) -> Seq<char> {
    let a1 = adv_space(s, a, b);
    let b1 = ret_space(s, a1, b);
    let a2 = adv_quote(s, a1, b1);
    let b2 = ret_quote(s, a2, b1);
    let a3 = adv_space(s, a2, b2);
    let b3 = ret_space(s, a3, b2);
    s.subrange(a3, b3)
}

/// The ASCII lower-case image of a character sequence.
pub open spec fn lower_seq(s: Seq<char>) -> Seq<char> {
    s.map_values(|c: char| lower_char(c))
}

/// Whether a lower-cased key is one of the recognized texture-bearing keys.
pub open spec fn recognized_key(k: Seq<char>) -> bool {
    ||| k == "basetexture"@
    ||| k == "iris"@
    ||| k == "ambientoccltexture"@
    ||| k == "bumpmap"@
    ||| k == "phongexponenttexture"@
    ||| k == "detail"@
    ||| k == "selfillummask"@
    ||| k == "lightwarptexture"@
    ||| k == "envmap"@
    ||| k == "corneatexture"@
}

/// The entry shape, tried at position `p` of a line: an optional quote, a
/// `$`, a non-empty run of word characters, an optional quote, then at
/// least one whitespace character.  On success, the result gives the key
/// bounds and the start of the raw value (which runs to the end of the
/// line).
pub open spec fn match_at(line: Seq<char>, p: int) -> Option<(int, int, int)> {
    let q = if p < line.len() && line[p] == '"' {
        p + 1
    } else {
        p
    };
    if q < line.len() && line[q] == '$' {
        let k0 = q + 1;
        let ke = word_end(line, k0, line.len() as int);
        if ke > k0 {
            let q2 = if ke < line.len() && line[ke] == '"' {
                ke + 1
            } else {
                ke
            };
            let we = adv_space(line, q2, line.len() as int);
            if we > q2 {
                Some((k0, ke, we))
            } else {
                None
            }
        } else {
            None
        }
    } else {
        None
    }
}

/// The first position at or after `p` where the entry shape matches, or
/// the line length if it matches nowhere.
pub open spec fn first_match(line: Seq<char>, p: int) -> int
    decreases line.len() - p,
{
    if p >= line.len() {
        line.len() as int
    } else if match_at(line, p) is Some {
        p
    } else {
        first_match(line, p + 1)
    }
}

/// What one line contributes: the cleaned value of its first entry, if the
/// line holds an entry and its key is recognized.
pub open spec fn line_yield(line: Seq<char>) -> Option<Seq<char>> {
    let p = first_match(line, 0);
    if p < line.len() {
        let m = match_at(line, p)->Some_0;
        if recognized_key(lower_seq(line.subrange(m.0, m.1))) {
            Some(cleaned_value(line, m.2, line.len() as int))
        } else {
            None
        }
    } else {
        None
    }
}

/// The first index at or after `i` holding a newline, or the text length.
pub open spec fn line_end(t: Seq<char>, i: int) -> int
    decreases t.len() - i,
{
    if i >= t.len() {
        t.len() as int
    } else if t[i] == '\n' {
        i
    } else {
        line_end(t, i + 1)
    }
}

/// Whether `p` starts a line of `t`.
pub open spec fn is_line_start(t: Seq<char>, p: int) -> bool {
    0 <= p <= t.len() && (p == 0 || t[p - 1] == '\n')
}

/// Whether `v` is one of the texture references of descriptor text `t`:
/// some line of `t` yields it.
pub open spec fn vmt_ref(t: Seq<char>, v: Seq<char>) -> bool {
    exists|p: int|
        #[trigger] is_line_start(t, p) && line_yield(t.subrange(p, line_end(t, p))) == Some(v)
}

/// The views of a sequence of strings.
pub open spec fn views_of(ss: Seq<String>) -> Seq<Seq<char>> {
    ss.map_values(|s: String| s@)
}

/// The references collected from the lines at and after position `p`, in
/// first-occurrence order, on top of those already collected in `acc`.
pub open spec fn vmt_fold(t: Seq<char>, p: int, acc: Seq<Seq<char>>) -> Seq<Seq<char>>
    decreases t.len() - p,
    via vmt_fold_decreases
{
    if !(0 <= p <= t.len()) {
        acc
    } else {
        let e = line_end(t, p);
        let acc2 = match line_yield(t.subrange(p, e)) {
            Some(v) => if acc.contains(v) {
                acc
            } else {
                acc.push(v)
            },
            None => acc,
        };
        if e >= t.len() {
            acc2
        } else {
            vmt_fold(t, e + 1, acc2)
        }
    }
}

proof fn lemma_line_end_bounds(t: Seq<char>, p: int)
    requires
        0 <= p <= t.len(),
    ensures
        p <= line_end(t, p) <= t.len(),
    decreases t.len() - p,
{
    if p < t.len() && t[p] != '\n' {
        lemma_line_end_bounds(t, p + 1);
    }
}

#[via_fn]
proof fn vmt_fold_decreases(t: Seq<char>, p: int, acc: Seq<Seq<char>>) {
    if 0 <= p <= t.len() {
        lemma_line_end_bounds(t, p);
    }
}

/// The texture references of descriptor text `t`, in the order the parser
/// hands them out: line by line, first occurrence kept.
pub open spec fn vmt_list(t: Seq<char>) -> Seq<Seq<char>> {
    vmt_fold(t, 0, Seq::empty())
}

fn exec_word_end(line: &Vec<char>, i: usize) -> (r: usize)
    requires
        i <= line@.len(),
    ensures
        r == word_end(line@, i as int, line@.len() as int),
        i <= r <= line@.len(),
    decreases line@.len() - i,
{
    if i < line.len() && exec_is_word_char(line[i]) {
        exec_word_end(line, i + 1)
    } else {
        i
    }
}

fn exec_adv_space(line: &Vec<char>, i: usize, end: usize) -> (r: usize)
    requires
        i <= end <= line@.len(),
    ensures
        r == adv_space(line@, i as int, end as int),
        i <= r <= end,
    decreases end - i,
{
    if i < end && exec_is_space(line[i]) {
        exec_adv_space(line, i + 1, end)
    } else {
        i
    }
}

fn exec_ret_space(line: &Vec<char>, i: usize, j: usize) -> (r: usize)
    requires
        i <= j <= line@.len(),
    ensures
        r == ret_space(line@, i as int, j as int),
        i <= r <= j,
    decreases j - i,
{
    if j > i && exec_is_space(line[j - 1]) {
        exec_ret_space(line, i, j - 1)
    } else {
        j
    }
}

fn exec_adv_quote(line: &Vec<char>, i: usize, end: usize) -> (r: usize)
    requires
        i <= end <= line@.len(),
    ensures
        r == adv_quote(line@, i as int, end as int),
        i <= r <= end,
    decreases end - i,
{
    if i < end && line[i] == '"' {
        exec_adv_quote(line, i + 1, end)
    } else {
        i
    }
}

fn exec_ret_quote(line: &Vec<char>, i: usize, j: usize) -> (r: usize)
    requires
        i <= j <= line@.len(),
    ensures
        r == ret_quote(line@, i as int, j as int),
        i <= r <= j,
    decreases j - i,
{
    if j > i && line[j - 1] == '"' {
        exec_ret_quote(line, i, j - 1)
    } else {
        j
    }
}

/// Builds the string of the characters in `[a, b)` of the line.
fn region_string(line: &Vec<char>, a: usize, b: usize) -> (r: String)
    requires
        a <= b <= line@.len(),
    ensures
        r@ == line@.subrange(a as int, b as int),
{
    let mut v: Vec<char> = Vec::new();
    let mut j = a;
    while j < b
        invariant
            a <= j <= b <= line@.len(),
            v@ == line@.subrange(a as int, j as int),
        decreases b - j,
    {
        v.push(line[j]);
        j += 1;
        proof {
            assert(line@.subrange(a as int, j as int) =~= line@.subrange(a as int, j - 1).push(
                line@[j - 1],
            ));
        }
    }
    string_of_chars(&v)
}

/// Builds the cleaned value of the region `[a, b)` of the line.
fn cleaned_region(line: &Vec<char>, a: usize, b: usize) -> (r: String)
    requires
        a <= b <= line@.len(),
    ensures
        r@ == cleaned_value(line@, a as int, b as int),
{
    let a1 = exec_adv_space(line, a, b);
    let b1 = exec_ret_space(line, a1, b);
    let a2 = exec_adv_quote(line, a1, b1);
    let b2 = exec_ret_quote(line, a2, b1);
    let a3 = exec_adv_space(line, a2, b2);
    let b3 = exec_ret_space(line, a3, b2);
    region_string(line, a3, b3)
}

/// Builds the ASCII lower-case image of the region `[a, b)` of the line.
fn lower_region(line: &Vec<char>, a: usize, b: usize) -> (r: String)
    requires
        a <= b <= line@.len(),
    ensures
        r@ == lower_seq(line@.subrange(a as int, b as int)),
{
    let mut r = String::new();
    let mut j = a;
    while j < b
        invariant
            a <= j <= b <= line@.len(),
            r@ == lower_seq(line@.subrange(a as int, j as int)),
        decreases b - j,
    {
        push_char(&mut r, exec_lower_char(line[j]));
        j += 1;
        proof {
            assert(lower_seq(line@.subrange(a as int, j as int)) =~= lower_seq(
                line@.subrange(a as int, j - 1),
            ).push(lower_char(line@[j - 1])));
        }
    }
    r
}

/// Whether a lower-cased key is recognized, as `recognized_key` states.
fn is_recognized(k: &String) -> (r: bool)
    ensures
        r == recognized_key(k@),
{
    k.eq(&String::from_str("basetexture")) || k.eq(&String::from_str("iris")) || k.eq(
        &String::from_str("ambientoccltexture"),
    ) || k.eq(&String::from_str("bumpmap")) || k.eq(&String::from_str("phongexponenttexture"))
        || k.eq(&String::from_str("detail")) || k.eq(&String::from_str("selfillummask")) || k.eq(
        &String::from_str("lightwarptexture"),
    ) || k.eq(&String::from_str("envmap")) || k.eq(&String::from_str("corneatexture"))
}

/// Tries the entry shape at position `p`, as `match_at` states.
fn exec_match_at(line: &Vec<char>, p: usize) -> (r: Option<(usize, usize, usize)>)
    requires
        p < line@.len(),
    ensures
        match r {
            Some(t) => {
                &&& match_at(line@, p as int) == Some((t.0 as int, t.1 as int, t.2 as int))
                &&& p as int <= t.0 <= t.1 <= t.2 <= line@.len()
            },
            None => match_at(line@, p as int) is None,
        },
{
    let n = line.len();
    let q = if line[p] == '"' {
        p + 1
    } else {
        p
    };
    if q < n && line[q] == '$' {
        let k0 = q + 1;
        let ke = exec_word_end(line, k0);
        if ke > k0 {
            let q2 = if ke < n && line[ke] == '"' {
                ke + 1
            } else {
                ke
            };
            let we = exec_adv_space(line, q2, n);
            if we > q2 {
                Some((k0, ke, we))
            } else {
                None
            }
        } else {
            None
        }
    } else {
        None
    }
}

proof fn lemma_first_match_skip(line: Seq<char>, q: int, p: int)
    requires
        0 <= q <= p <= line.len(),
        forall|p2: int| q <= p2 < p ==> #[trigger] match_at(line, p2) is None,
    ensures
        first_match(line, q) == first_match(line, p),
    decreases p - q,
{
    if q < p {
        lemma_first_match_skip(line, q + 1, p);
    }
}

/// What one line contributes, as `line_yield` states.
fn parse_line(line: &Vec<char>) -> (r: Option<String>)
    ensures
        match r {
            Some(v) => line_yield(line@) == Some(v@),
            None => line_yield(line@) is None,
        },
{
    let n = line.len();
    let mut p: usize = 0;
    while p < n
        invariant
            n == line@.len(),
            p <= n,
            forall|p2: int| 0 <= p2 < p ==> #[trigger] match_at(line@, p2) is None,
        decreases n - p,
    {
        match exec_match_at(line, p) {
            Some((k0, ke, we)) => {
                proof {
                    lemma_first_match_skip(line@, 0, p as int);
                    assert(first_match(line@, p as int) == p);
                }
                let kl = lower_region(line, k0, ke);
                if is_recognized(&kl) {
                    let v = cleaned_region(line, we, n);
                    return Some(v);
                }
                return None;
            },
            None => {
                p += 1;
            },
        }
    }
    proof {
        lemma_first_match_skip(line@, 0, n as int);
    }
    None
}

proof fn lemma_line_end_at(t: Seq<char>, start: int, e: int)
    requires
        0 <= start <= e <= t.len(),
        forall|j: int| start <= j < e ==> t[j] != '\n',
        e < t.len() ==> t[e] == '\n',
    ensures
        line_end(t, start) == e,
    decreases e - start,
{
    if start < e {
        lemma_line_end_at(t, start + 1, e);
    }
}

/// Parses a material descriptor into its texture references.
///
/// The result holds, without duplicates, exactly the cleaned values of the
/// recognized `$key value` entries of the text, one entry tried per line,
/// each value listed where it first occurs.
pub fn parse(text: &str) -> (r: VMT)
    ensures
        forall|i: int, j: int|
            0 <= i < j < r.textures@.len() ==> (#[trigger] r.textures@[i])@ != (
            #[trigger] r.textures@[j])@,
        forall|i: int| 0 <= i < r.textures@.len() ==> vmt_ref(text@, (#[trigger] r.textures@[i])@),
        forall|v: Seq<char>| #[trigger] vmt_ref(text@, v) ==> seq_has_string(r.textures@, v),
        views_of(r.textures@) == vmt_list(text@),
{
    let cs = chars_of_str(text);
    let n = cs.len();
    let mut out: Vec<String> = Vec::new();
    let mut start: usize = 0;
    proof {
        assert(views_of(out@) =~= Seq::<Seq<char>>::empty());
    }
    loop
        invariant_except_break
            vmt_list(text@) == vmt_fold(text@, start as int, views_of(out@)),
        invariant
            cs@ == text@,
            n == cs@.len(),
            start <= n,
            is_line_start(text@, start as int),
            forall|q: int|
                #[trigger] is_line_start(text@, q) && q < start && line_yield(
                    text@.subrange(q, line_end(text@, q)),
                ) is Some ==> seq_has_string(
                    out@,
                    line_yield(text@.subrange(q, line_end(text@, q)))->Some_0,
                ),
            forall|i: int| 0 <= i < out@.len() ==> vmt_ref(text@, (#[trigger] out@[i])@),
            forall|i: int, j: int|
                0 <= i < j < out@.len() ==> (#[trigger] out@[i])@ != (#[trigger] out@[j])@,
        ensures
            forall|q: int|
                #[trigger] is_line_start(text@, q) && line_yield(
                    text@.subrange(q, line_end(text@, q)),
                ) is Some ==> seq_has_string(
                    out@,
                    line_yield(text@.subrange(q, line_end(text@, q)))->Some_0,
                ),
            forall|i: int| 0 <= i < out@.len() ==> vmt_ref(text@, (#[trigger] out@[i])@),
            forall|i: int, j: int|
                0 <= i < j < out@.len() ==> (#[trigger] out@[i])@ != (#[trigger] out@[j])@,
            views_of(out@) == vmt_list(text@),
        decreases n - start,
    {
        let mut e: usize = start;
        while e < n && cs[e] != '\n'
            invariant
                cs@ == text@,
                n == cs@.len(),
                start <= e <= n,
                forall|j: int| start <= j < e ==> text@[j] != '\n',
            decreases n - e,
        {
            e += 1;
        }
        proof {
            lemma_line_end_at(text@, start as int, e as int);
        }
        let mut lv: Vec<char> = Vec::new();
        let mut j: usize = start;
        while j < e
            invariant
                cs@ == text@,
                n == cs@.len(),
                start <= j <= e <= n,
                lv@ == text@.subrange(start as int, j as int),
            decreases e - j,
        {
            lv.push(cs[j]);
            j += 1;
            proof {
                assert(text@.subrange(start as int, j as int) =~= text@.subrange(
                    start as int,
                    j - 1,
                ).push(text@[j - 1]));
            }
        }
        let ghost lspec = text@.subrange(start as int, line_end(text@, start as int));
        proof {
            assert(lv@ == lspec);
        }
        let ghost out0 = out@;
        match parse_line(&lv) {
            Some(v) => {
                proof {
                    assert(vmt_ref(text@, v@)) by {
                        assert(is_line_start(text@, start as int));
                    }
                }
                if !vec_has_string(&out, &v) {
                    out.push(v);
                    proof {
                        assert(out@[out0.len() as int]@ == line_yield(lspec)->Some_0);
                        assert(seq_has_string(out@, line_yield(lspec)->Some_0));
                        assert forall|i: int, j2: int|
                            0 <= i < j2 < out@.len() implies (#[trigger] out@[i])@ != (
                        #[trigger] out@[j2])@ by {
                            if j2 < out0.len() {
                                assert(out0[i]@ != out0[j2]@);
                            } else {
                                assert(!seq_has_string(out0, out@[j2]@));
                            }
                        }
                    }
                } else {
                    proof {
                        assert(seq_has_string(out@, line_yield(lspec)->Some_0));
                    }
                }
            },
            None => (),
        }
        proof {
            let acc0 = views_of(out0);
            let acc2 = match line_yield(lspec) {
                Some(v) => if acc0.contains(v) {
                    acc0
                } else {
                    acc0.push(v)
                },
                None => acc0,
            };
            assert(views_of(out@) =~= acc2) by {
                match line_yield(lspec) {
                    Some(v) => {
                        assert(acc0.contains(v) == seq_has_string(out0, v)) by {
                            if acc0.contains(v) {
                                let w = choose|w: int|
                                    0 <= w < acc0.len() && acc0[w] == v;
                                assert(out0[w]@ == v);
                            }
                            if seq_has_string(out0, v) {
                                let w = choose|w: int| 0 <= w < out0.len() && out0[w]@ == v;
                                assert(acc0[w] == v);
                            }
                        }
                    },
                    None => (),
                }
            }
            assert(vmt_fold(text@, start as int, acc0) == (if e as int >= text@.len() {
                acc2
            } else {
                vmt_fold(text@, e + 1, acc2)
            }));
        }
        proof {
            assert forall|q: int|
                #[trigger] is_line_start(text@, q) && q < e + 1 && line_yield(
                    text@.subrange(q, line_end(text@, q)),
                ) is Some implies seq_has_string(
                out@,
                line_yield(text@.subrange(q, line_end(text@, q)))->Some_0,
            ) by {
                let v = line_yield(text@.subrange(q, line_end(text@, q)))->Some_0;
                if q < start as int {
                    assert(seq_has_string(out0, v));
                    let w = choose|w: int| 0 <= w < out0.len() && out0[w]@ == v;
                    assert(out@[w]@ == v);
                } else if q > start as int {
                    assert(text@[q - 1] == '\n');
                    assert(false);
                }
            }
        }
        if e == n {
            proof {
                assert forall|q: int|
                    #[trigger] is_line_start(text@, q) && line_yield(
                        text@.subrange(q, line_end(text@, q)),
                    ) is Some implies seq_has_string(
                    out@,
                    line_yield(text@.subrange(q, line_end(text@, q)))->Some_0,
                ) by {
                    assert(q <= n);
                }
            }
            break ;
        }
        start = e + 1;
    }
    proof {
        assert forall|v: Seq<char>| #[trigger] vmt_ref(text@, v) implies seq_has_string(out@, v) by {
            let q = choose|q: int|
                #[trigger] is_line_start(text@, q) && line_yield(
                    text@.subrange(q, line_end(text@, q)),
                ) == Some(v);
        }
    }
    VMT { textures: out }
}

} // verus!
