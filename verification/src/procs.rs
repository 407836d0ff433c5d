use vstd::prelude::*;

verus! {

/// Walking up from a process through its ancestors, `chain` (the process
/// first, then its parent, and so on): `parent` where it is met before the
/// end of the line (pid 0), else 0.
pub open spec fn ancestor_found(parent: i32, chain: Seq<i32>) -> i32
    decreases chain.len(),
{
    if chain.len() == 0 {
        0
    } else if chain[0] == parent {
        parent
    } else if chain[0] == 0 {
        0
    } else {
        ancestor_found(parent, chain.drop_first())
    }
}

/// Whether process `parent` is met walking up the ancestry `chain` of a
/// process: `parent` where it is, else 0.
pub fn isdescprocess(parent: i32, chain: &[i32]) -> (r: i32)
    ensures
        r == ancestor_found(parent, chain@),
{
    let n = chain.len();
    let mut i: usize = 0;
    proof { assert(chain@.subrange(0, n as int) =~= chain@); }
    while i < n
        invariant
            n == chain@.len(),
            i <= n,
            ancestor_found(parent, chain@.subrange(i as int, n as int)) == ancestor_found(parent, chain@),
        decreases n - i,
    {
        proof {
            let rest = chain@.subrange(i as int, n as int);
            assert(rest.drop_first() =~= chain@.subrange(i as int + 1, n as int));
            assert(rest[0] == chain@[i as int]);
        }
        if chain[i] == parent {
            return parent;
        }
        if chain[i] == 0 {
            return 0;
        }
        i += 1;
    }
    proof { assert(chain@.subrange(n as int, n as int).len() == 0); }
    0
}

/// A byte that separates words: space, tab, line feed, vertical tab, form
/// feed or carriage return.
pub open spec fn is_space(b: u8) -> bool {
    b == 32 || (9 <= b && b <= 13)
}

/// `s` without its leading separators.
pub open spec fn trim_start(s: Seq<u8>) -> Seq<u8>
    decreases s.len(),
{
    if s.len() > 0 && is_space(s[0]) { trim_start(s.drop_first()) } else { s }
}

/// The leading word of `s` (which starts with no separator).
pub open spec fn leading_word(s: Seq<u8>) -> Seq<u8>
    decreases s.len(),
{
    if s.len() == 0 || is_space(s[0]) { Seq::empty() } else { seq![s[0]] + leading_word(s.drop_first()) }
}

/// Word `n` (from 0) of `s`, words being separated by separators.
pub open spec fn nth_word(s: Seq<u8>, n: nat) -> Option<Seq<u8>>
    decreases s.len(), n,
{
    let t = trim_start(s);
    if t.len() == 0 {
        None
    } else {
        let w = leading_word(t);
        if n == 0 {
            Some(w)
        } else {
            proof { lemma_trim_len(s); lemma_word_len(t); }
            nth_word(t.subrange(w.len() as int, t.len() as int), (n - 1) as nat)
        }
    }
}

pub proof fn lemma_trim_len(s: Seq<u8>)
    ensures
        trim_start(s).len() <= s.len(),
        trim_start(s).len() == 0 || !is_space(trim_start(s)[0]),
        trim_start(s) == s.subrange(s.len() - trim_start(s).len(), s.len() as int),
    decreases s.len(),
{
    if s.len() > 0 && is_space(s[0]) {
        lemma_trim_len(s.drop_first());
        assert(s.drop_first().subrange(s.drop_first().len() - trim_start(s).len(), s.drop_first().len() as int)
            =~= s.subrange(s.len() - trim_start(s).len(), s.len() as int));
    } else {
        assert(s.subrange(0, s.len() as int) =~= s);
    }
}

pub proof fn lemma_word_len(s: Seq<u8>)
    ensures
        leading_word(s).len() <= s.len(),
        s.len() > 0 && !is_space(s[0]) ==> leading_word(s).len() > 0,
        leading_word(s) == s.subrange(0, leading_word(s).len() as int),
        leading_word(s).len() < s.len() ==> is_space(s[leading_word(s).len() as int]),
    decreases s.len(),
{
    if s.len() > 0 && !is_space(s[0]) {
        lemma_word_len(s.drop_first());
        assert(seq![s[0]] + s.drop_first().subrange(0, leading_word(s.drop_first()).len() as int)
            =~= s.subrange(0, leading_word(s).len() as int));
    }
}

/// The value of a string of decimal digits.
pub open spec fn digits_value(s: Seq<u8>) -> int
    decreases s.len(),
{
    if s.len() == 0 { 0 } else { digits_value(s.drop_last()) * 10 + (s.last() - 48) }
}

/// Every byte of `s` is a decimal digit.
pub open spec fn all_digits(s: Seq<u8>) -> bool {
    forall|k: int| 0 <= k < s.len() ==> 48 <= #[trigger] s[k] <= 57
}

/// A 32-bit integer written as an optional `+` or `-` and at least one
/// decimal digit, as Rust's parser reads it; `None` where the text is no
/// such number or the number does not fit.
pub open spec fn parse_i32_spec(s: Seq<u8>) -> Option<i32> {
    let neg = s.len() > 0 && s[0] == 45;
    let ds = if s.len() > 0 && (s[0] == 45 || s[0] == 43) { s.drop_first() } else { s };
    let v = if neg { -digits_value(ds) } else { digits_value(ds) };
    if ds.len() == 0 || !all_digits(ds) || v < i32::MIN || v > i32::MAX {
        None
    } else {
        Some(v as i32)
    }
}

proof fn lemma_digits_nonneg(s: Seq<u8>)
    requires
        all_digits(s),
    ensures
        digits_value(s) >= 0,
    decreases s.len(),
{
    if s.len() > 0 {
        assert(all_digits(s.drop_last())) by {
            assert forall|k: int| 0 <= k < s.drop_last().len() implies 48 <= #[trigger] s.drop_last()[k] <= 57 by {
                assert(s.drop_last()[k] == s[k]);
            }
        }
        lemma_digits_nonneg(s.drop_last());
        assert(48 <= s[s.len() - 1] <= 57);
    }
}

/// Reads a 32-bit integer as Rust's parser does.
pub fn parse_i32(s: &[u8]) -> (r: Option<i32>)
    ensures
        r == parse_i32_spec(s@),
{
    let n = s.len();
    if n == 0 {
        return None;
    }
    let neg = s[0] == 45;
    let start: usize = if s[0] == 45 || s[0] == 43 { 1 } else { 0 };
    let ghost ds = if s@[0] == 45 || s@[0] == 43 { s@.drop_first() } else { s@ };
    proof { assert(ds =~= s@.subrange(start as int, n as int)); }
    if start == n {
        return None;
    }
    let mut acc: i64 = 0;
    let mut i: usize = start;
    while i < n
        invariant
            n == s@.len(),
            start <= i <= n,
            ds == s@.subrange(start as int, n as int),
            ds == (if s@.len() > 0 && (s@[0] == 45 || s@[0] == 43) { s@.drop_first() } else { s@ }),
            neg == (s@.len() > 0 && s@[0] == 45),
            all_digits(s@.subrange(start as int, i as int)),
            acc == digits_value(s@.subrange(start as int, i as int)),
            0 <= acc <= 0x8000_0000,
        decreases n - i,
    {
        let b = s[i];
        if b < 48 || b > 57 {
            proof {
                assert(ds[i - start] == b);
                assert(!all_digits(ds));
                assert(ds == (if s@.len() > 0 && (s@[0] == 45 || s@[0] == 43) { s@.drop_first() } else { s@ }));
            }
            return None;
        }
        proof {
            let p = s@.subrange(start as int, i as int + 1);
            assert(p.drop_last() =~= s@.subrange(start as int, i as int));
            assert(p.last() == b);
            assert forall|k: int| 0 <= k < p.len() implies 48 <= #[trigger] p[k] <= 57 by {
                if k < p.len() - 1 {
                    assert(p[k] == s@.subrange(start as int, i as int)[k]);
                }
            }
        }
        let next = acc * 10 + (b - 48) as i64;
        if next > 0x8000_0000 {
            proof {
                assert(ds == (if s@.len() > 0 && (s@[0] == 45 || s@[0] == 43) { s@.drop_first() } else { s@ }));
                if all_digits(ds) {
                    lemma_digits_grow(ds, (i + 1 - start) as int);
                    assert(s@.subrange(start as int, i as int + 1) =~= ds.subrange(0, (i + 1 - start) as int));
                }
            }
            return None;
        }
        acc = next;
        i += 1;
    }
    proof { assert(s@.subrange(start as int, n as int) =~= ds); }
    if neg {
        let v = -acc;
        Some(v as i32)
    } else if acc > 0x7fff_ffff {
        None
    } else {
        Some(acc as i32)
    }
}

/// A string of digits has a value at least that of each of its prefixes.
proof fn lemma_digits_grow(s: Seq<u8>, k: int)
    requires
        all_digits(s),
        0 <= k <= s.len(),
    ensures
        digits_value(s) >= digits_value(s.subrange(0, k)),
    decreases s.len(),
{
    if k < s.len() {
        let d = s.drop_last();
        assert(all_digits(d)) by {
            assert forall|j: int| 0 <= j < d.len() implies 48 <= #[trigger] d[j] <= 57 by {
                assert(d[j] == s[j]);
            }
        }
        lemma_digits_grow(d, k);
        assert(d.subrange(0, k) =~= s.subrange(0, k));
        lemma_digits_nonneg(d);
        assert(48 <= s[s.len() - 1]);
    } else {
        assert(s.subrange(0, k) =~= s);
    }
}


/// The position of the first byte from `from` on that is no separator.
fn skip_spaces(s: &[u8], from: usize) -> (r: usize)
    requires
        from <= s@.len(),
    ensures
        from <= r <= s@.len(),
        s@.subrange(r as int, s@.len() as int) == trim_start(s@.subrange(from as int, s@.len() as int)),
{
    let n = s.len();
    let mut r = from;
    while r < n && (s[r] == 32 || (9 <= s[r] && s[r] <= 13))
        invariant
            n == s@.len(),
            from <= r <= n,
            trim_start(s@.subrange(r as int, n as int)) == trim_start(s@.subrange(from as int, n as int)),
        decreases n - r,
    {
        proof {
            let t = s@.subrange(r as int, n as int);
            assert(t.drop_first() =~= s@.subrange(r as int + 1, n as int));
            assert(t[0] == s@[r as int]);
        }
        r += 1;
    }
    proof {
        let t = s@.subrange(r as int, n as int);
        if r < n {
            assert(t[0] == s@[r as int]);
        }
    }
    r
}

/// The position after the word that starts at `from`.
fn word_end(s: &[u8], from: usize) -> (r: usize)
    requires
        from <= s@.len(),
    ensures
        from <= r <= s@.len(),
        s@.subrange(from as int, r as int) == leading_word(s@.subrange(from as int, s@.len() as int)),
{
    let n = s.len();
    let mut r = from;
    while r < n && !(s[r] == 32 || (9 <= s[r] && s[r] <= 13))
        invariant
            n == s@.len(),
            from <= r <= n,
            leading_word(s@.subrange(from as int, n as int))
                == s@.subrange(from as int, r as int) + leading_word(s@.subrange(r as int, n as int)),
        decreases n - r,
    {
        proof {
            let t = s@.subrange(r as int, n as int);
            assert(t.drop_first() =~= s@.subrange(r as int + 1, n as int));
            assert(t[0] == s@[r as int]);
            assert(s@.subrange(from as int, r as int + 1) =~= s@.subrange(from as int, r as int) + seq![s@[r as int]]);
            assert(s@.subrange(from as int, r as int) + (seq![s@[r as int]] + leading_word(s@.subrange(r as int + 1, n as int)))
                =~= s@.subrange(from as int, r as int + 1) + leading_word(s@.subrange(r as int + 1, n as int)));
        }
        r += 1;
    }
    proof {
        let t = s@.subrange(r as int, n as int);
        if r < n {
            assert(t[0] == s@[r as int]);
        }
        assert(leading_word(t).len() == 0);
        assert(s@.subrange(from as int, r as int) + leading_word(t) =~= s@.subrange(from as int, r as int));
    }
    r
}

/// The range of word `k` (from 0) of the bytes of `s` from `from` on.
fn nth_word_range(s: &[u8], from: usize, k: usize) -> (r: Option<(usize, usize)>)
    requires
        from <= s@.len(),
    ensures
        match r {
            Some((a, b)) => a <= b <= s@.len()
                && nth_word(s@.subrange(from as int, s@.len() as int), k as nat) == Some(s@.subrange(a as int, b as int)),
            None => nth_word(s@.subrange(from as int, s@.len() as int), k as nat) is None,
        },
{
    let n = s.len();
    let mut p = from;
    let mut left = k;
    loop
        invariant
            n == s@.len(),
            from <= p <= n,
            left <= k,
            nth_word(s@.subrange(p as int, n as int), left as nat) == nth_word(s@.subrange(from as int, n as int), k as nat),
        decreases n - p,
    {
        let ghost t0 = s@.subrange(p as int, n as int);
        let q = skip_spaces(s, p);
        if q == n {
            proof { assert(trim_start(t0).len() == 0); }
            return None;
        }
        let e = word_end(s, q);
        proof {
            let t = trim_start(t0);
            assert(t == s@.subrange(q as int, n as int));
            assert(t.len() > 0);
            lemma_trim_len(t0);
            lemma_word_len(t);
            assert(leading_word(t) == s@.subrange(q as int, e as int));
            assert(e > q);
        }
        if left == 0 {
            return Some((q, e));
        }
        proof {
            let t = trim_start(t0);
            let w = leading_word(t);
            assert(t.subrange(w.len() as int, t.len() as int) =~= s@.subrange(e as int, n as int));
        }
        p = e;
        left -= 1;
    }
}

/// Position `i` of `s` holds a closing parenthesis followed by a space.
pub open spec fn paren_at(s: Seq<u8>, i: int) -> bool {
    0 <= i && i + 1 < s.len() && s[i] == 41 && s[i + 1] == 32
}

/// The parent process id in the contents `s` of a `/proc/<pid>/stat` file:
/// after the last ") ", the second word (the first is the state), read as
/// a 32-bit integer; 0 where any of that is missing.
pub open spec fn stat_ppid(s: Seq<u8>) -> i32 {
    if exists|i: int| #[trigger] paren_at(s, i) {
        let i = choose|i: int| #[trigger] paren_at(s, i) && forall|j: int| #[trigger] paren_at(s, j) ==> j <= i;
        match nth_word(s.subrange(i + 2, s.len() as int), 1) {
            Some(w) => match parse_i32_spec(w) {
                Some(p) => p,
                None => 0,
            },
            None => 0,
        }
    } else {
        0
    }
}

/// The parent process id written in the contents of a `/proc/<pid>/stat`
/// file.
pub fn parse_ppid(s: &[u8]) -> (r: i32)
    ensures
        r == stat_ppid(s@),
{
    let n = s.len();
    if n < 2 {
        proof { assert forall|i: int| !#[trigger] paren_at(s@, i) by {} }
        return 0;
    }
    let mut i: usize = n - 1;
    while i > 0 && !(s[i - 1] == 41 && s[i] == 32)
        invariant
            n == s@.len(),
            n >= 2,
            i <= n - 1,
            forall|j: int| i <= j < n ==> !#[trigger] paren_at(s@, j),
        decreases i,
    {
        i -= 1;
    }
    if i == 0 {
        proof {
            assert forall|j: int| !#[trigger] paren_at(s@, j) by {
                if 0 <= j < n {
                    assert(j >= 0);
                }
            }
        }
        return 0;
    }
    let at = i - 1;
    proof {
        assert(paren_at(s@, at as int));
        let c = choose|c: int| #[trigger] paren_at(s@, c) && forall|j: int| #[trigger] paren_at(s@, j) ==> j <= c;
        assert(paren_at(s@, at as int) && forall|j: int| #[trigger] paren_at(s@, j) ==> j <= at);
        assert(c <= at && at <= c);
    }
    match nth_word_range(s, at + 2, 1) {
        Some((a, b)) => {
            let w = slice_of(s, a, b);
            match parse_i32(w.as_slice()) {
                Some(p) => p,
                None => 0,
            }
        },
        None => 0,
    }
}

/// The bytes of `s` from `a` to `b`.
fn slice_of(s: &[u8], a: usize, b: usize) -> (r: Vec<u8>)
    requires
        a <= b <= s@.len(),
    ensures
        r@ == s@.subrange(a as int, b as int),
{
    let mut r: Vec<u8> = Vec::new();
    let mut i = a;
    while i < b
        invariant
            a <= i <= b,
            b <= s@.len(),
            r@ == s@.subrange(a as int, i as int),
        decreases b - i,
    {
        r.push(s[i]);
        proof { assert(r@ =~= s@.subrange(a as int, i as int + 1)); }
        i += 1;
    }
    r
}

} // verus!
