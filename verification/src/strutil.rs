//! Character and string helpers shared by the decoder, the material parser
//! and the path resolver: ASCII classification, lower-casing, path
//! normalization and decimal formatting.

use vstd::prelude::*;

verus! {

/// Relies on std's `String::push`: appends exactly one character.
#[verifier::external_body]
pub(crate) fn push_char(s: &mut String, c: char)
    ensures
        final(s)@ == old(s)@.push(c),
{
    s.push(c);
}

/// The character a byte stands for, one to one (code point = byte value).
pub open spec fn byte_char(b: u8) -> char {
    b as char
}

/// Whether a character is ASCII whitespace as the parsers here understand it.
pub open spec fn is_space(c: char) -> bool {
    c == ' ' || c == '\t' || c == '\r' || c == '\n' || c == '\u{b}' || c == '\u{c}'
}

/// Whether a character may appear in a descriptor key.
pub open spec fn is_word_char(c: char) -> bool {
    ('a' <= c && c <= 'z') || ('A' <= c && c <= 'Z') || ('0' <= c && c <= '9') || c == '_'
}

/// The ASCII lower-case image of a character; anything but `A`..`Z` is kept.
pub open spec fn lower_char(c: char) -> char {
    if 'A' <= c && c <= 'Z' {
        ((c as u8) + 32) as char
    } else {
        c
    }
}

/// A path character with backslashes turned into forward slashes and ASCII
/// letters lower-cased.
pub open spec fn clean_char(c: char) -> char {
    if c == '\\' {
        '/'
    } else {
        lower_char(c)
    }
}

/// The cleaned form of a path: separators normalized, letters lower-cased.
pub open spec fn clean_path_spec(s: Seq<char>) -> Seq<char> {
    s.map_values(|c: char| clean_char(c))
}

pub fn exec_is_space(c: char) -> (r: bool)
    ensures
        r == is_space(c),
{
    c == ' ' || c == '\t' || c == '\r' || c == '\n' || c == '\u{b}' || c == '\u{c}'
}

pub fn exec_is_word_char(c: char) -> (r: bool)
    ensures
        r == is_word_char(c),
{
    ('a' <= c && c <= 'z') || ('A' <= c && c <= 'Z') || ('0' <= c && c <= '9') || c == '_'
}

pub fn exec_lower_char(c: char) -> (r: char)
    ensures
        r == lower_char(c),
{
    if 'A' <= c && c <= 'Z' {
        ((c as u8) + 32) as char
    } else {
        c
    }
}

pub fn exec_clean_char(c: char) -> (r: char)
    ensures
        r == clean_char(c),
{
    if c == '\\' {
        '/'
    } else {
        exec_lower_char(c)
    }
}

/// Builds a `String` out of a vector of characters.
pub fn string_of_chars(v: &Vec<char>) -> (r: String)
    ensures
        r@ == v@,
{
    let mut r = String::new();
    let mut i: usize = 0;
    while i < v.len()
        invariant
            i <= v.len(),
            r@ == v@.take(i as int),
        decreases v.len() - i,
    {
        push_char(&mut r, v[i]);
        i += 1;
        proof {
            assert(v@.take(i as int) =~= v@.take(i - 1).push(v@[i - 1]));
        }
    }
    proof {
        assert(v@.take(v@.len() as int) =~= v@);
    }
    r
}

/// Collects the characters of a string slice into a vector.
pub fn chars_of_str(s: &str) -> (r: Vec<char>)
    ensures
        r@ == s@,
{
    let n = s.unicode_len();
    let mut r: Vec<char> = Vec::new();
    let mut i: usize = 0;
    while i < n
        invariant
            i <= n,
            n == s@.len(),
            r@ == s@.take(i as int),
        decreases n - i,
    {
        r.push(s.get_char(i));
        i += 1;
        proof {
            assert(s@.take(i as int) =~= s@.take(i - 1).push(s@[i - 1]));
        }
    }
    proof {
        assert(s@.take(n as int) =~= s@);
    }
    r
}

/// Normalizes a path string: backslashes become forward slashes and ASCII
/// letters are lower-cased.
pub fn clean_path(s: &str) -> (r: String)
    ensures
        r@ == clean_path_spec(s@),
{
    let n = s.unicode_len();
    let mut r = String::new();
    let mut i: usize = 0;
    while i < n
        invariant
            i <= n,
            n == s@.len(),
            r@ == clean_path_spec(s@.take(i as int)),
        decreases n - i,
    {
        push_char(&mut r, exec_clean_char(s.get_char(i)));
        i += 1;
        proof {
            assert(clean_path_spec(s@.take(i as int)) =~= clean_path_spec(
                s@.take(i - 1),
            ).push(clean_char(s@[i - 1])));
        }
    }
    proof {
        assert(s@.take(n as int) =~= s@);
    }
    r
}

/// How many separator characters (`/` or `\`) a string holds.
pub open spec fn sep_count(s: Seq<char>) -> nat
    decreases s.len(),
{
    if s.len() == 0 {
        0
    } else {
        sep_count(s.drop_last()) + if s.last() == '/' || s.last() == '\\' {
            1nat
        } else {
            0nat
        }
    }
}

pub fn count_seps(s: &str) -> (r: usize)
    ensures
        r == sep_count(s@),
{
    let n = s.unicode_len();
    let mut r: usize = 0;
    let mut i: usize = 0;
    while i < n
        invariant
            i <= n,
            n == s@.len(),
            r == sep_count(s@.take(i as int)),
            r <= i,
        decreases n - i,
    {
        let c = s.get_char(i);
        if c == '/' || c == '\\' {
            r += 1;
        }
        i += 1;
        proof {
            assert(s@.take(i as int).drop_last() =~= s@.take(i - 1));
        }
    }
    proof {
        assert(s@.take(n as int) =~= s@);
    }
    r
}

/// Whether a sequence of characters holds a `/`.
pub open spec fn has_slash(s: Seq<char>) -> bool {
    exists|i: int| 0 <= i < s.len() && s[i] == '/'
}

/// The largest index of a `/` in `s`; meaningful only when `has_slash(s)`.
pub open spec fn last_slash(s: Seq<char>) -> int {
    choose|i: int| 0 <= i < s.len() && s[i] == '/' && (forall|j: int|
        i < j < s.len() ==> s[j] != '/')
}

/// The parent of a path: everything before the last `/`, or the empty
/// string when the path has no `/` at all.
pub open spec fn parent_spec(s: Seq<char>) -> Seq<char> {
    if has_slash(s) {
        s.take(last_slash(s))
    } else {
        Seq::empty()
    }
}

proof fn lemma_last_slash(s: Seq<char>, i: int)
    requires
        0 <= i < s.len(),
        s[i] == '/',
        forall|j: int| i < j < s.len() ==> s[j] != '/',
    ensures
        has_slash(s),
        last_slash(s) == i,
{
    assert(has_slash(s));
    let k = last_slash(s);
    assert(0 <= k < s.len() && s[k] == '/' && (forall|j: int|
        k < j < s.len() ==> s[j] != '/')) by {
        assert(exists|c: int|
            0 <= c < s.len() && s[c] == '/' && (forall|j: int|
                c < j < s.len() ==> s[j] != '/'));
    }
    if k < i {
        assert(s[i] != '/');
    }
    if i < k {
        assert(s[k] != '/');
    }
}

/// The parent directory of a path string, as `parent_spec` states.
pub fn parent_path(s: &String) -> (r: String)
    ensures
        r@ == parent_spec(s@),
{
    let n = s.as_str().unicode_len();
    let mut i: usize = n;
    while i > 0
        invariant
            i <= n,
            n == s@.len(),
            forall|j: int| i <= j < s@.len() ==> s@[j] != '/',
        decreases i,
    {
        if s.as_str().get_char(i - 1) == '/' {
            proof {
                lemma_last_slash(s@, i - 1);
            }
            let mut r = String::new();
            let mut k: usize = 0;
            while k < i - 1
                invariant
                    k <= i - 1,
                    i <= n,
                    n == s@.len(),
                    r@ == s@.take(k as int),
                decreases i - k,
            {
                push_char(&mut r, s.as_str().get_char(k));
                k += 1;
                proof {
                    assert(s@.take(k as int) =~= s@.take(k - 1).push(s@[k - 1]));
                }
            }
            return r;
        }
        i -= 1;
    }
    proof {
        if has_slash(s@) {
            let w = choose|w: int| 0 <= w < s@.len() && s@[w] == '/';
            assert(s@[w] != '/');
        }
    }
    String::new()
}

/// Whether some string in `v` has exactly the characters of `s`.
pub open spec fn seq_has_string(v: Seq<String>, s: Seq<char>) -> bool {
    exists|i: int| 0 <= i < v.len() && v[i]@ == s
}

/// Linear membership test of a string among a vector of strings.
pub fn vec_has_string(v: &Vec<String>, s: &String) -> (r: bool)
    ensures
        r == seq_has_string(v@, s@),
{
    let mut i: usize = 0;
    while i < v.len()
        invariant
            i <= v.len(),
            forall|j: int| 0 <= j < i ==> v@[j]@ != s@,
        decreases v.len() - i,
    {
        if s.eq(&v[i]) {
            return true;
        }
        i += 1;
    }
    false
}

/// The character for a single decimal digit.
pub open spec fn digit_char(d: nat) -> char {
    ((48 + d) as u8) as char
}

/// The decimal numeral of `n`, most significant digit first.
pub open spec fn dec_digits(n: nat) -> Seq<char>
    decreases n,
{
    if n < 10 {
        seq![digit_char(n)]
    } else {
        dec_digits(n / 10).push(digit_char(n % 10))
    }
}

/// Formats a number in decimal, as `dec_digits` states.
pub fn u64_to_string(n: u64) -> (r: String)
    ensures
        r@ == dec_digits(n as nat),
    decreases n,
{
    if n < 10 {
        let mut r = String::new();
        push_char(&mut r, ((48 + (n as u8)) as char));
        return r;
    }
    let mut r = u64_to_string(n / 10);
    push_char(&mut r, (48 + ((n % 10) as u8)) as char);
    r
}

/// `a` and `b` joined with a single separator; an empty `a` leaves `b`
/// alone.
pub open spec fn join_spec(a: Seq<char>, b: Seq<char>) -> Seq<char> {
    if a.len() == 0 {
        b
    } else {
        a + "/"@ + b
    }
}

/// Joins two path pieces, as `join_spec` states.
pub fn join_path(a: &String, b: &str) -> (r: String)
    ensures
        r@ == join_spec(a@, b@),
{
    if a.as_str().unicode_len() == 0 {
        let mut r = String::new();
        r.append(b);
        proof {
            assert(r@ =~= b@);
        }
        r
    } else {
        let mut r = a.clone();
        r.append("/");
        r.append(b);
        r
    }
}

/// Whether `s` begins with `pre`.
pub open spec fn starts_with_spec(s: Seq<char>, pre: Seq<char>) -> bool {
    s.len() >= pre.len() && s.take(pre.len() as int) == pre
}

/// Prefix test on strings, as `starts_with_spec` states.
pub fn str_starts_with(s: &String, pre: &String) -> (r: bool)
    ensures
        r == starts_with_spec(s@, pre@),
{
    let n = s.as_str().unicode_len();
    let m = pre.as_str().unicode_len();
    if n < m {
        proof {
            assert(!starts_with_spec(s@, pre@));
        }
        return false;
    }
    let mut i: usize = 0;
    while i < m
        invariant
            n == s@.len(),
            m == pre@.len(),
            m <= n,
            i <= m,
            forall|j: int| 0 <= j < i ==> s@[j] == pre@[j],
        decreases m - i,
    {
        if s.as_str().get_char(i) != pre.as_str().get_char(i) {
            proof {
                assert(s@.take(m as int)[i as int] != pre@[i as int]);
            }
            return false;
        }
        i += 1;
    }
    proof {
        assert(s@.take(m as int) =~= pre@);
    }
    true
}

/// The largest index of a `.` in `s`; meaningful only when one exists.
pub open spec fn has_dot(s: Seq<char>) -> bool {
    exists|i: int| 0 <= i < s.len() && s[i] == '.'
}

/// The largest index holding a `.`; meaningful only when `has_dot(s)`.
pub open spec fn last_dot(s: Seq<char>) -> int {
    choose|i: int|
        0 <= i < s.len() && s[i] == '.' && (forall|j: int| i < j < s.len() ==> s[j] != '.')
}

/// The file-name part of a path: everything after the last `/`.
pub open spec fn base_name_spec(s: Seq<char>) -> Seq<char> {
    if has_slash(s) {
        s.skip(last_slash(s) + 1)
    } else {
        s
    }
}

/// The stem of a path: its file name up to the last `.`, except that a
/// leading `.` never counts as an extension separator.
pub open spec fn stem_spec(s: Seq<char>) -> Seq<char> {
    let n = base_name_spec(s);
    if has_dot(n) && last_dot(n) > 0 {
        n.take(last_dot(n))
    } else {
        n
    }
}

proof fn lemma_last_dot(s: Seq<char>, i: int)
    requires
        0 <= i < s.len(),
        s[i] == '.',
        forall|j: int| i < j < s.len() ==> s[j] != '.',
    ensures
        has_dot(s),
        last_dot(s) == i,
{
    assert(has_dot(s));
    let k = last_dot(s);
    assert(0 <= k < s.len() && s[k] == '.' && (forall|j: int| k < j < s.len() ==> s[j] != '.'))
        by {
        assert(exists|c: int|
            0 <= c < s.len() && s[c] == '.' && (forall|j: int| c < j < s.len() ==> s[j] != '.'));
    }
    if k < i {
        assert(s[i] != '.');
    }
    if i < k {
        assert(s[k] != '.');
    }
}

/// The file-name part of a path, as `base_name_spec` states.
pub fn base_name(s: &String) -> (r: String)
    ensures
        r@ == base_name_spec(s@),
{
    let n = s.as_str().unicode_len();
    let mut i: usize = n;
    while i > 0
        invariant
            i <= n,
            n == s@.len(),
            forall|j: int| i <= j < s@.len() ==> s@[j] != '/',
        decreases i,
    {
        if s.as_str().get_char(i - 1) == '/' {
            proof {
                lemma_last_slash(s@, i - 1);
            }
            let mut v: Vec<char> = Vec::new();
            let mut k: usize = i;
            while k < n
                invariant
                    i <= k <= n,
                    n == s@.len(),
                    v@ == s@.subrange(i as int, k as int),
                decreases n - k,
            {
                v.push(s.as_str().get_char(k));
                k += 1;
                proof {
                    assert(s@.subrange(i as int, k as int) =~= s@.subrange(i as int, k - 1).push(
                        s@[k - 1],
                    ));
                }
            }
            proof {
                assert(s@.subrange(i as int, n as int) =~= s@.skip(last_slash(s@) + 1));
            }
            return string_of_chars(&v);
        }
        i -= 1;
    }
    proof {
        if has_slash(s@) {
            let w = choose|w: int| 0 <= w < s@.len() && s@[w] == '/';
            assert(s@[w] != '/');
        }
    }
    s.clone()
}

/// The stem of a path, as `stem_spec` states.
pub fn path_stem(s: &String) -> (r: String)
    ensures
        r@ == stem_spec(s@),
{
    let nm = base_name(s);
    let n = nm.as_str().unicode_len();
    let mut i: usize = n;
    while i > 0
        invariant
            i <= n,
            n == nm@.len(),
            nm@ == base_name_spec(s@),
            forall|j: int| i <= j < nm@.len() ==> nm@[j] != '.',
        decreases i,
    {
        if nm.as_str().get_char(i - 1) == '.' {
            proof {
                lemma_last_dot(nm@, i - 1);
            }
            if i - 1 == 0 {
                proof {
                    assert(nm@ == base_name_spec(s@));
                    assert(last_dot(base_name_spec(s@)) == 0);
                    assert(stem_spec(s@) == base_name_spec(s@));
                }
                return nm;
            }
            let mut v: Vec<char> = Vec::new();
            let mut k: usize = 0;
            while k < i - 1
                invariant
                    k <= i - 1,
                    i <= n,
                    n == nm@.len(),
                    v@ == nm@.subrange(0, k as int),
                decreases i - k,
            {
                v.push(nm.as_str().get_char(k));
                k += 1;
                proof {
                    assert(nm@.subrange(0, k as int) =~= nm@.subrange(0, k - 1).push(nm@[k - 1]));
                }
            }
            proof {
                assert(nm@ == base_name_spec(s@));
                assert(has_dot(base_name_spec(s@)) && last_dot(base_name_spec(s@)) == i - 1 > 0);
                assert(v@ =~= base_name_spec(s@).take(last_dot(base_name_spec(s@))));
                assert(stem_spec(s@) == base_name_spec(s@).take(last_dot(base_name_spec(s@))));
            }
            return string_of_chars(&v);
        }
        i -= 1;
    }
    proof {
        if has_dot(nm@) {
            let w = choose|w: int| 0 <= w < nm@.len() && nm@[w] == '.';
            assert(nm@[w] != '.');
        }
    }
    nm
}

} // verus!
