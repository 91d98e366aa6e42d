//! The textual-signature parser.
//!
//! A relation is given as the source text of a function declaration.  The
//! parser extracts the declared function name and counts the comma-separated
//! parameters between the argument-list parentheses; it reports nothing when
//! no recognizable declaration is found.

use vstd::prelude::*;

verus! {

/// The keyword that opens a function declaration.
pub open spec fn fn_keyword() -> Seq<char> {
    "function"@
}

pub open spec fn is_space_char(c: char) -> bool {
    c == ' ' || c == '\t' || c == '\n' || c == '\r'
}

/// Index of the first occurrence of `c` in `s` at or after `from`.
pub open spec fn find_char_from(s: Seq<char>, c: char, from: int) -> Option<int>
    decreases s.len() - from,
{
    if from < 0 || from >= s.len() {
        None
    } else if s[from] == c {
        Some(from)
    } else {
        find_char_from(s, c, from + 1)
    }
}

/// Index of the first occurrence of `pat` as a contiguous run in `s` at or
/// after `from`.
pub open spec fn find_seq_from(s: Seq<char>, pat: Seq<char>, from: int) -> Option<int>
    decreases s.len() + 1 - from,
{
    if from < 0 || from + pat.len() > s.len() {
        None
    } else if s.subrange(from, from + pat.len() as int) == pat {
        Some(from)
    } else {
        find_seq_from(s, pat, from + 1)
    }
}

pub open spec fn count_commas(s: Seq<char>) -> nat
    decreases s.len(),
{
    if s.len() == 0 {
        0
    } else {
        count_commas(s.drop_last()) + (if s.last() == ',' {
            1nat
        } else {
            0nat
        })
    }
}

pub open spec fn all_space(s: Seq<char>) -> bool {
    forall|i: int| 0 <= i < s.len() ==> is_space_char(s[i])
}

/// How many parameters a parenthesized argument list declares: none when the
/// list is blank, otherwise one more than its commas.
pub open spec fn spec_arg_count(inner: Seq<char>) -> nat {
    if all_space(inner) {
        0
    } else {
        count_commas(inner) + 1
    }
}

pub open spec fn trim_start(s: Seq<char>) -> Seq<char>
    decreases s.len(),
{
    if s.len() == 0 {
        s
    } else if is_space_char(s[0]) {
        trim_start(s.drop_first())
    } else {
        s
    }
}

pub open spec fn trim_end(s: Seq<char>) -> Seq<char>
    decreases s.len(),
{
    if s.len() == 0 {
        s
    } else if is_space_char(s.last()) {
        trim_end(s.drop_last())
    } else {
        s
    }
}

pub open spec fn trim_spaces(s: Seq<char>) -> Seq<char> {
    trim_end(trim_start(s))
}

/// What the parser extracts from a relation source: the declared name (the
/// trimmed text between the keyword and the opening parenthesis) and the
/// parameter count of the argument list.
pub open spec fn spec_parse_signature(s: Seq<char>) -> Option<(Seq<char>, nat)> {
    match find_seq_from(s, fn_keyword(), 0) {
        None => None,
        Some(st) => {
            let after = st + fn_keyword().len();
            match find_char_from(s, '(', after as int) {
                None => None,
                Some(lp) => match find_char_from(s, ')', lp) {
                    None => None,
                    Some(rp) => Some(
                        (trim_spaces(s.subrange(after as int, lp)), spec_arg_count(
                            s.subrange(lp + 1, rp),
                        )),
                    ),
                },
            }
        },
    }
}

fn is_space(c: char) -> (r: bool)
    ensures
        r == is_space_char(c),
{
    c == ' ' || c == '\t' || c == '\n' || c == '\r'
}

fn find_char(s: &str, c: char, from: usize) -> (r: Option<usize>)
    requires
        from <= s@.len(),
    ensures
        match r {
            Some(i) => {
                &&& find_char_from(s@, c, from as int) == Some(i as int)
                &&& from <= i < s@.len()
                &&& s@[i as int] == c
            },
            None => find_char_from(s@, c, from as int) is None,
        },
{
    let n = s.unicode_len();
    let mut i = from;
    while i < n
        invariant
            from <= i <= n,
            n == s@.len(),
            find_char_from(s@, c, from as int) == find_char_from(s@, c, i as int),
        decreases n - i,
    {
        if s.get_char(i) == c {
            return Some(i);
        }
        i += 1;
    }
    None
}

fn keyword_at(s: &str, i: usize) -> (r: bool)
    requires
        i + 8 <= s@.len(),
        s@.len() <= usize::MAX,
    ensures
        r == (s@.subrange(i as int, i as int + 8) == fn_keyword()),
{
    proof {
        reveal_strlit("function");
    }
    let r = s.get_char(i) == 'f' && s.get_char(i + 1) == 'u' && s.get_char(i + 2) == 'n'
        && s.get_char(i + 3) == 'c' && s.get_char(i + 4) == 't' && s.get_char(i + 5) == 'i'
        && s.get_char(i + 6) == 'o' && s.get_char(i + 7) == 'n';
    proof {
        let sub = s@.subrange(i as int, i as int + 8);
        if r {
            assert(sub =~= fn_keyword());
        } else {
            if sub == fn_keyword() {
                assert(s@[i as int] == sub[0]);
                assert(s@[i + 1] == sub[1]);
                assert(s@[i + 2] == sub[2]);
                assert(s@[i + 3] == sub[3]);
                assert(s@[i + 4] == sub[4]);
                assert(s@[i + 5] == sub[5]);
                assert(s@[i + 6] == sub[6]);
                assert(s@[i + 7] == sub[7]);
            }
        }
    }
    r
}

fn find_keyword(s: &str) -> (r: Option<usize>)
    ensures
        s@.len() <= usize::MAX,
        match r {
            Some(i) => {
                &&& find_seq_from(s@, fn_keyword(), 0) == Some(i as int)
                &&& i + 8 <= s@.len()
            },
            None => find_seq_from(s@, fn_keyword(), 0) is None,
        },
{
    proof {
        reveal_strlit("function");
    }
    let n = s.unicode_len();
    if n < 8 {
        return None;
    }
    let mut i: usize = 0;
    while i <= n - 8
        invariant
            8 <= n,
            i <= n - 7,
            n == s@.len(),
            fn_keyword().len() == 8,
            find_seq_from(s@, fn_keyword(), 0) == find_seq_from(s@, fn_keyword(), i as int),
        decreases n - i,
    {
        if keyword_at(s, i) {
            return Some(i);
        }
        i += 1;
    }
    None
}

proof fn lemma_trim_start_is_subrange(s: Seq<char>, k: int)
    requires
        0 <= k <= s.len(),
        forall|i: int| 0 <= i < k ==> is_space_char(s[i]),
        k < s.len() ==> !is_space_char(s[k]),
    ensures
        trim_start(s) == s.subrange(k, s.len() as int),
    decreases k,
{
    if k == 0 {
        assert(s.subrange(0, s.len() as int) =~= s);
    } else {
        let t = s.drop_first();
        assert(forall|i: int| 0 <= i < k - 1 ==> is_space_char(#[trigger] t[i]));
        lemma_trim_start_is_subrange(t, k - 1);
        assert(t.subrange(k - 1, t.len() as int) =~= s.subrange(k, s.len() as int));
    }
}

proof fn lemma_trim_end_is_subrange(s: Seq<char>, k: int)
    requires
        0 <= k <= s.len(),
        forall|i: int| k <= i < s.len() ==> is_space_char(s[i]),
        k > 0 ==> !is_space_char(s[k - 1]),
    ensures
        trim_end(s) == s.subrange(0, k),
    decreases s.len() - k,
{
    if k == s.len() {
        assert(s.subrange(0, k) =~= s);
    } else {
        let t = s.drop_last();
        lemma_trim_end_is_subrange(t, k);
        assert(t.subrange(0, k) =~= s.subrange(0, k));
    }
}

fn trim_bounds(s: &str, lo: usize, hi: usize) -> (r: (usize, usize))
    requires
        lo <= hi <= s@.len(),
    ensures
        lo <= r.0 <= r.1 <= hi,
        s@.subrange(r.0 as int, r.1 as int) == trim_spaces(s@.subrange(lo as int, hi as int)),
{
    let ghost q = s@.subrange(lo as int, hi as int);
    let mut a = lo;
    while a < hi && is_space(s.get_char(a))
        invariant
            lo <= a <= hi <= s@.len(),
            forall|i: int| lo <= i < a ==> is_space_char(s@[i]),
        decreases hi - a,
    {
        a += 1;
    }
    let mut b = hi;
    while b > a && is_space(s.get_char(b - 1))
        invariant
            a <= b <= hi <= s@.len(),
            forall|i: int| b <= i < hi ==> is_space_char(s@[i]),
        decreases b - a,
    {
        b -= 1;
    }
    proof {
        assert(forall|i: int| 0 <= i < q.len() ==> q[i] == s@[lo + i]);
        lemma_trim_start_is_subrange(q, a - lo);
        let t = q.subrange(a as int - lo, q.len() as int);
        assert(forall|i: int| 0 <= i < t.len() ==> t[i] == s@[a + i]);
        lemma_trim_end_is_subrange(t, b - a);
        assert(t.subrange(0, b as int - a) =~= s@.subrange(a as int, b as int));
    }
    (a, b)
}

fn scan_args(s: &str, lo: usize, hi: usize) -> (r: usize)
    requires
        lo <= hi <= s@.len(),
        hi - lo < usize::MAX,
    ensures
        r as nat == spec_arg_count(s@.subrange(lo as int, hi as int)),
{
    let mut commas: usize = 0;
    let mut nonspace = false;
    let mut j = lo;
    while j < hi
        invariant
            lo <= j <= hi <= s@.len(),
            commas <= j - lo,
            hi - lo < usize::MAX,
            commas as nat == count_commas(s@.subrange(lo as int, j as int)),
            nonspace == !all_space(s@.subrange(lo as int, j as int)),
        decreases hi - j,
    {
        let c = s.get_char(j);
        proof {
            let q = s@.subrange(lo as int, j as int);
            let p = s@.subrange(lo as int, j + 1);
            assert(p =~= q.push(s@[j as int]));
            assert(p.drop_last() =~= q);
            assert(p.last() == s@[j as int]);
            if all_space(q) && is_space_char(s@[j as int]) {
                assert forall|i: int| 0 <= i < p.len() implies is_space_char(p[i]) by {
                    if i < q.len() {
                        assert(p[i] == q[i]);
                    }
                }
            }
            if all_space(p) {
                assert forall|i: int| 0 <= i < q.len() implies is_space_char(q[i]) by {
                    assert(p[i] == q[i]);
                }
                assert(is_space_char(p[p.len() - 1]));
            }
        }
        if c == ',' {
            commas += 1;
        }
        if !is_space(c) {
            nonspace = true;
        }
        j += 1;
    }
    if nonspace {
        commas + 1
    } else {
        0
    }
}

/// Extracts from a relation source the declared function name and the number
/// of parameters it takes, or reports that no function declaration was found.
pub fn process_function_string(input: &str) -> (r: Option<(String, usize)>)
    ensures
        match r {
            Some(p) => spec_parse_signature(input@) == Some((p.0@, p.1 as nat)),
            None => spec_parse_signature(input@) is None,
        },
{
    proof {
        reveal_strlit("function");
    }
    let st = match find_keyword(input) {
        None => {
            return None;
        },
        Some(i) => i,
    };
    let after = st + 8;
    let lp = match find_char(input, '(', after) {
        None => {
            return None;
        },
        Some(i) => i,
    };
    let rp = match find_char(input, ')', lp) {
        None => {
            return None;
        },
        Some(i) => i,
    };
    let (a, b) = trim_bounds(input, after, lp);
    let name = input.substring_char(a, b).to_owned();
    let count = scan_args(input, lp + 1, rp);
    Some((name, count))
}

} // verus!
