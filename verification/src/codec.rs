//! The bijective codec: a positional numeral system whose digits run
//! `1..=B` instead of `0..B-1`, so that every positive integer has
//! exactly one representation as a non-empty string over a `B`-symbol
//! alphabet.

use std::collections::HashSet;
use vstd::prelude::*;

verus! {

broadcast use {vstd::set::group_set_axioms, vstd::std_specs::hash::group_hash_axioms};

/// The outcome of decoding a string: the ordinal it denotes, or
/// `None` when some symbol lies outside the alphabet (or the value
/// does not fit in `usize`).
pub type OrdResult = Option<usize>;

/// Every character of `s` occurs somewhere in the alphabet `alpha`.
pub open spec fn all_in_alphabet(alpha: Seq<char>, s: Seq<char>) -> bool {
    forall|i: int| 0 <= i < s.len() ==> alpha.contains(#[trigger] s[i])
}

/// The first index of `c` in `alpha`; `alpha.len()` when `c` is absent.
pub open spec fn digit_of(alpha: Seq<char>, c: char) -> int
    decreases alpha.len(),
{
    if alpha.len() == 0 {
        0
    } else if alpha[0] == c {
        0
    } else {
        1 + digit_of(alpha.drop_first(), c)
    }
}

/// The numeric value of `s` read as bijective base-`alpha.len()`
/// digits, most significant first: each symbol contributes its
/// 0-based alphabet position plus one. The empty string has value 0,
/// which is not an ordinal.
pub open spec fn seq_ord(alpha: Seq<char>, s: Seq<char>) -> int
    decreases s.len(),
{
    if s.len() == 0 {
        0
    } else {
        seq_ord(alpha, s.drop_last()) * alpha.len() + digit_of(alpha, s.last()) + 1
    }
}

/// The bijective base-`alpha.len()` representation of `n`: empty for
/// `n <= 0`, otherwise the representation of `(n - 1) / B` followed by
/// the symbol at position `(n - 1) % B`.
pub open spec fn encode_seq(alpha: Seq<char>, n: int) -> Seq<char>
    decreases n,
    via encode_seq_decreases
{
    if n <= 0 || alpha.len() == 0 {
        Seq::empty()
    } else {
        encode_seq(alpha, (n - 1) / (alpha.len() as int)).push(
            alpha[(n - 1) % (alpha.len() as int)],
        )
    }
}

#[via_fn]
proof fn encode_seq_decreases(alpha: Seq<char>, n: int) {
    if n >= 1 && alpha.len() >= 1 {
        vstd::arithmetic::div_mod::lemma_div_pos_is_pos(n - 1, alpha.len() as int);
        vstd::arithmetic::div_mod::lemma_div_nonincreasing(n - 1, alpha.len() as int);
    }
}

/// When `c` occurs in `alpha`, `digit_of` is its first occurrence.
pub proof fn lemma_digit_of_found(alpha: Seq<char>, c: char)
    requires
        alpha.contains(c),
    ensures
        0 <= digit_of(alpha, c) < alpha.len(),
        alpha[digit_of(alpha, c)] == c,
        forall|j: int| 0 <= j < digit_of(alpha, c) ==> alpha[j] != c,
    decreases alpha.len(),
{
    if alpha[0] != c {
        let sub = alpha.drop_first();
        assert(sub.contains(c)) by {
            let i = choose|i: int| 0 <= i < alpha.len() && alpha[i] == c;
            assert(sub[i - 1] == c);
        }
        lemma_digit_of_found(sub, c);
        assert forall|j: int| 0 <= j < digit_of(alpha, c) implies alpha[j] != c by {
            if j > 0 {
                assert(sub[j - 1] == alpha[j]);
            }
        }
    }
}

/// In a duplicate-free alphabet the first occurrence of `alpha[d]` is
/// `d` itself.
pub proof fn lemma_digit_of_position(alpha: Seq<char>, d: int)
    requires
        alpha.no_duplicates(),
        0 <= d < alpha.len(),
    ensures
        digit_of(alpha, alpha[d]) == d,
{
    assert(alpha.contains(alpha[d]));
    lemma_digit_of_found(alpha, alpha[d]);
    let f = digit_of(alpha, alpha[d]);
    if f < d {
        assert(alpha[f] == alpha[d]);
    }
}

/// A digit position is never negative.
pub proof fn lemma_digit_of_nonneg(alpha: Seq<char>, c: char)
    ensures
        digit_of(alpha, c) >= 0,
    decreases alpha.len(),
{
    if alpha.len() > 0 && alpha[0] != c {
        lemma_digit_of_nonneg(alpha.drop_first(), c);
    }
}

/// The value of a string is never negative.
pub proof fn lemma_seq_ord_nonneg(alpha: Seq<char>, s: Seq<char>)
    ensures
        seq_ord(alpha, s) >= 0,
    decreases s.len(),
{
    if s.len() > 0 {
        lemma_seq_ord_nonneg(alpha, s.drop_last());
        lemma_digit_of_nonneg(alpha, s.last());
        vstd::arithmetic::mul::lemma_mul_nonnegative(
            seq_ord(alpha, s.drop_last()),
            alpha.len() as int,
        );
    }
}

/// Extending a string never lowers its value: the value of a prefix
/// is at most the value of the whole (for a non-empty alphabet).
pub proof fn lemma_seq_ord_prefix_le(alpha: Seq<char>, s: Seq<char>, i: int)
    requires
        alpha.len() >= 1,
        0 <= i <= s.len(),
    ensures
        seq_ord(alpha, s.take(i)) <= seq_ord(alpha, s),
    decreases s.len() - i,
{
    if i == s.len() {
        assert(s.take(i) =~= s);
    } else {
        let pre = s.take(i);
        let ext = s.take(i + 1);
        assert(ext.drop_last() =~= pre);
        assert(ext.last() == s[i]);
        let v = seq_ord(alpha, pre);
        lemma_seq_ord_nonneg(alpha, pre);
        lemma_digit_of_nonneg(alpha, s[i]);
        assert(v * alpha.len() >= v) by (nonlinear_arith)
            requires
                v >= 0,
                alpha.len() >= 1,
        ;
        lemma_seq_ord_prefix_le(alpha, s, i + 1);
    }
}

/// The round-trip law of the codec: over a duplicate-free alphabet,
/// the encoding of any ordinal `n >= 1` is a non-empty string of
/// alphabet symbols whose value decodes back to exactly `n`.
pub proof fn lemma_round_trip(alpha: Seq<char>, n: int)
    requires
        alpha.no_duplicates(),
        alpha.len() >= 1,
        n >= 1,
    ensures
        encode_seq(alpha, n).len() >= 1,
        all_in_alphabet(alpha, encode_seq(alpha, n)),
        seq_ord(alpha, encode_seq(alpha, n)) == n,
    decreases n,
{
    let b = alpha.len() as int;
    let q = (n - 1) / b;
    let d = (n - 1) % b;
    vstd::arithmetic::div_mod::lemma_div_pos_is_pos(n - 1, b);
    vstd::arithmetic::div_mod::lemma_div_nonincreasing(n - 1, b);
    vstd::arithmetic::div_mod::lemma_mod_division_less_than_divisor(n - 1, b);
    vstd::arithmetic::div_mod::lemma_fundamental_div_mod(n - 1, b);
    let pre = encode_seq(alpha, q);
    let enc = encode_seq(alpha, n);
    assert(enc == pre.push(alpha[d]));
    assert(enc.drop_last() =~= pre);
    assert(enc.last() == alpha[d]);
    lemma_digit_of_position(alpha, d);
    if q == 0 {
        assert(pre =~= Seq::<char>::empty());
    } else {
        lemma_round_trip(alpha, q);
    }
    assert(seq_ord(alpha, pre) == q);
    assert(seq_ord(alpha, enc) == seq_ord(alpha, enc.drop_last()) * alpha.len() + digit_of(
        alpha,
        enc.last(),
    ) + 1);
    assert(seq_ord(alpha, enc) == q * b + d + 1);
    assert(n - 1 == b * q + d);
    assert(q * b == b * q) by (nonlinear_arith);
    assert forall|i: int| 0 <= i < enc.len() implies alpha.contains(#[trigger] enc[i]) by {
        if i < pre.len() {
            assert(enc[i] == pre[i]);
        } else {
            assert(enc[i] == alpha[d]);
        }
    }
}

/// The length of an encoding never shrinks as the ordinal grows.
pub proof fn lemma_encode_len_monotonic(alpha: Seq<char>, m: int, n: int)
    requires
        alpha.len() >= 1,
        m <= n,
    ensures
        encode_seq(alpha, m).len() <= encode_seq(alpha, n).len(),
    decreases n,
{
    if m >= 1 {
        let b = alpha.len() as int;
        vstd::arithmetic::div_mod::lemma_div_pos_is_pos(n - 1, b);
        vstd::arithmetic::div_mod::lemma_div_nonincreasing(n - 1, b);
        vstd::arithmetic::div_mod::lemma_div_is_ordered(m - 1, n - 1, b);
        lemma_encode_len_monotonic(alpha, (m - 1) / b, (n - 1) / b);
    }
}

/// Some string among `names` is made only of alphabet symbols and
/// has value `n`: the ordinal `n` is already taken.
pub open spec fn ord_is_used(alpha: Seq<char>, names: Seq<Seq<char>>, n: int) -> bool {
    exists|j: int|
        0 <= j < names.len() && all_in_alphabet(alpha, #[trigger] names[j]) && seq_ord(
            alpha,
            names[j],
        ) == n
}

/// Whether the characters of `s` are pairwise distinct, so that `s`
/// can serve as an alphabet with the round-trip guarantee.
pub fn unique_symbols(s: &str) -> (r: bool)
    ensures
        r == s@.no_duplicates(),
{
    let n = s.unicode_len();
    let mut i: usize = 0;
    while i < n
        invariant
            i <= n,
            n == s@.len(),
            forall|p: int, q: int| 0 <= p < q < i ==> s@[p] != s@[q],
        decreases n - i,
    {
        let c = s.get_char(i);
        let mut j: usize = 0;
        while j < i
            invariant
                j <= i,
                i < n,
                n == s@.len(),
                c == s@[i as int],
                forall|q: int| 0 <= q < j ==> s@[q] != s@[i as int],
            decreases i - j,
        {
            if s.get_char(j) == c {
                proof {
                    assert(s@[j as int] == s@[i as int] && j as int != i as int);
                }
                return false;
            }
            j = j + 1;
        }
        i = i + 1;
    }
    proof {
        assert forall|p: int, q: int|
            (0 <= p < s@.len() && 0 <= q < s@.len() && p != q) implies s@[p] != s@[q] by {
            if p < q {
                assert(s@[p] != s@[q]);
            } else {
                assert(s@[q] != s@[p]);
            }
        }
    }
    true
}

/// A bijective positional codec over an ordered alphabet of symbols.
pub struct AnyBase {
    base: usize,
    digits: Vec<char>,
}

impl AnyBase {
    /// The alphabet this codec encodes with, in order.
    pub closed spec fn alphabet(self) -> Seq<char> {
        self.digits@
    }

    /// The cached symbol count agrees with the alphabet.
    #[verifier::type_invariant]
    spec fn wf(self) -> bool {
        self.base == self.digits@.len()
    }

    /// Builds a codec over the characters of `digits`, in the order
    /// given. Duplicate symbols are accepted here, but they void the
    /// round-trip guarantee (see `lemma_round_trip`).
    pub fn new(digits: &str) -> (r: Self)
        ensures
            r.alphabet() == digits@,
    {
        let n = digits.unicode_len();
        let mut symbols: Vec<char> = Vec::new();
        let mut i: usize = 0;
        while i < n
            invariant
                i <= n,
                n == digits@.len(),
                symbols@ =~= digits@.take(i as int),
            decreases n - i,
        {
            let c = digits.get_char(i);
            symbols.push(c);
            proof {
                assert(symbols@ =~= digits@.take(i + 1 as int));
            }
            i = i + 1;
        }
        proof {
            assert(symbols@ =~= digits@);
        }
        Self { base: n, digits: symbols }
    }

    /// How many symbols the alphabet holds.
    pub fn symbol_count(&self) -> (n: usize)
        ensures
            n == self.alphabet().len(),
    {
        proof {
            use_type_invariant(self);
        }
        self.base
    }

    /// The first position of `c` in the alphabet, or `None` when the
    /// alphabet does not hold `c`.
    fn find_digit(&self, c: char) -> (r: Option<usize>)
        ensures
            match r {
                Some(p) => {
                    &&& self.alphabet().contains(c)
                    &&& p < self.alphabet().len()
                    &&& self.alphabet()[p as int] == c
                    &&& digit_of(self.alphabet(), c) == p as int
                },
                None => !self.alphabet().contains(c),
            },
    {
        proof {
            use_type_invariant(self);
        }
        let mut j: usize = 0;
        while j < self.digits.len()
            invariant
                self.wf(),
                j <= self.digits@.len(),
                forall|k: int| 0 <= k < j ==> self.digits@[k] != c,
            decreases self.digits@.len() - j,
        {
            if self.digits[j] == c {
                proof {
                    assert(self.alphabet().contains(c));
                    lemma_digit_of_found(self.alphabet(), c);
                    let f = digit_of(self.alphabet(), c);
                    if f < j {
                        assert(self.digits@[f] != c);
                    }
                    if f > j {
                        assert(self.digits@[j as int] != c);
                    }
                }
                return Some(j);
            }
            j = j + 1;
        }
        proof {
            if self.alphabet().contains(c) {
                let i = choose|i: int|
                    0 <= i < self.alphabet().len() && self.alphabet()[i] == c;
                assert(self.digits@[i] != c);
            }
        }
        None
    }

    /// Decodes `name` as a bijective base-`B` numeral: a left-to-right
    /// fold that turns each symbol into its alphabet position plus
    /// one. Yields `None` as soon as a symbol is not in the alphabet,
    /// or when the value would not fit in `usize`; the empty string
    /// yields `Some(0)`, which is not an ordinal.
    pub fn map_ord(&self, name: &str) -> (r: OrdResult)
        ensures
            match r {
                Some(v) => {
                    &&& all_in_alphabet(self.alphabet(), name@)
                    &&& seq_ord(self.alphabet(), name@) == v as int
                },
                None => {
                    ||| !all_in_alphabet(self.alphabet(), name@)
                    ||| seq_ord(self.alphabet(), name@) > usize::MAX as int
                },
            },
    {
        proof {
            use_type_invariant(self);
        }
        let ghost alpha = self.alphabet();
        let n = name.unicode_len();
        let mut res: usize = 0;
        let mut i: usize = 0;
        while i < n
            invariant
                self.wf(),
                alpha == self.alphabet(),
                i <= n,
                n == name@.len(),
                all_in_alphabet(alpha, name@.take(i as int)),
                seq_ord(alpha, name@.take(i as int)) == res as int,
            decreases n - i,
        {
            let c = name.get_char(i);
            proof {
                assert(name@.take(i + 1 as int).drop_last() =~= name@.take(i as int));
                assert(name@.take(i + 1 as int).last() == name@[i as int]);
            }
            match self.find_digit(c) {
                None => {
                    proof {
                        assert(!all_in_alphabet(alpha, name@));
                    }
                    return None;
                },
                Some(pos) => {
                    let scaled = match res.checked_mul(self.base) {
                        Some(t) => t,
                        None => {
                            proof {
                                lemma_digit_of_nonneg(alpha, c);
                                lemma_seq_ord_prefix_le(alpha, name@, i + 1 as int);
                            }
                            return None;
                        },
                    };
                    res = match scaled.checked_add(pos + 1) {
                        Some(t) => t,
                        None => {
                            proof {
                                lemma_seq_ord_prefix_le(alpha, name@, i + 1 as int);
                            }
                            return None;
                        },
                    };
                },
            }
            i = i + 1;
        }
        proof {
            assert(name@.take(n as int) =~= name@);
        }
        Some(res)
    }

    /// Encodes `ord` as the unique bijective base-`B` string for it:
    /// repeatedly take one off the ordinal, prepend the symbol at
    /// position `ord % B`, and divide by `B`. An ordinal of zero
    /// gives the empty string, which encodes no ordinal.
    pub fn map_emoji(&self, ord: usize) -> (r: String)
        requires
            self.alphabet().len() >= 1,
        ensures
            r@ == encode_seq(self.alphabet(), ord as int),
    {
        proof {
            use_type_invariant(self);
        }
        let ghost alpha = self.alphabet();
        let mut ord_res: usize = ord;
        let mut symbols: Vec<char> = Vec::new();
        while ord_res > 0
            invariant
                self.wf(),
                alpha == self.alphabet(),
                alpha.len() >= 1,
                encode_seq(alpha, ord as int) == encode_seq(alpha, ord_res as int) + symbols@,
            decreases ord_res,
        {
            let ghost prev = ord_res as int;
            let ghost before = symbols@;
            let d = (ord_res - 1) % self.base;
            let c = self.digits[d];
            symbols.insert(0, c);
            ord_res = (ord_res - 1) / self.base;
            proof {
                assert(encode_seq(alpha, prev) == encode_seq(alpha, ord_res as int).push(c));
                assert(symbols@ =~= seq![c] + before);
                assert(encode_seq(alpha, ord_res as int) + symbols@ =~= encode_seq(
                    alpha,
                    prev,
                ) + before);
            }
        }
        proof {
            assert(encode_seq(alpha, 0) + symbols@ =~= symbols@);
        }
        let mut result = String::new();
        let mut k: usize = 0;
        while k < symbols.len()
            invariant
                k <= symbols@.len(),
                result@ == symbols@.take(k as int),
            decreases symbols@.len() - k,
        {
            let c = symbols[k];
            crate::utils::push_char(&mut result, c);
            proof {
                assert(symbols@.take(k + 1 as int) =~= symbols@.take(k as int).push(
                    symbols@[k as int],
                ));
            }
            k = k + 1;
        }
        proof {
            assert(symbols@.take(symbols@.len() as int) =~= symbols@);
        }
        result
    }

    /// Issues the next identifier. Every existing name is decoded
    /// (names with foreign symbols are silently ignored), the
    /// smallest ordinal none of them takes is found, and its encoding
    /// is returned: a non-empty string over this alphabet that
    /// decodes, under this same alphabet, to that ordinal.
    pub fn next_name(&self, existing: &Vec<String>) -> (r: String)
        requires
            self.alphabet().len() >= 1,
            self.alphabet().no_duplicates(),
            existing@.len() < usize::MAX,
        ensures
            r@.len() >= 1,
            all_in_alphabet(self.alphabet(), r@),
            seq_ord(self.alphabet(), r@) >= 1,
            r@ == encode_seq(self.alphabet(), seq_ord(self.alphabet(), r@)),
            !ord_is_used(self.alphabet(), existing.deep_view(), seq_ord(self.alphabet(), r@)),
            forall|m: int|
                1 <= m < seq_ord(self.alphabet(), r@) ==> ord_is_used(
                    self.alphabet(),
                    existing.deep_view(),
                    m,
                ),
    {
        proof {
            use_type_invariant(self);
        }
        let ghost alpha = self.alphabet();
        let ghost names = existing.deep_view();
        let mut used: HashSet<usize> = HashSet::new();
        let mut i: usize = 0;
        while i < existing.len()
            invariant
                self.wf(),
                alpha == self.alphabet(),
                names == existing.deep_view(),
                i <= existing@.len(),
                existing@.len() < usize::MAX,
                used@.finite(),
                used@.len() <= i as int,
                forall|v: usize| #[trigger]
                    used@.contains(v) ==> ord_is_used(alpha, names, v as int),
                forall|j: int|
                    0 <= j < i && all_in_alphabet(alpha, #[trigger] names[j]) && seq_ord(
                        alpha,
                        names[j],
                    ) <= usize::MAX as int ==> used@.contains(
                        seq_ord(alpha, names[j]) as usize,
                    ),
            decreases existing@.len() - i,
        {
            proof {
                assert(names[i as int] == existing@[i as int]@);
            }
            match self.map_ord(existing[i].as_str()) {
                Some(v) => {
                    proof {
                        assert(all_in_alphabet(alpha, names[i as int]) && seq_ord(
                            alpha,
                            names[i as int],
                        ) == v as int);
                        assert(ord_is_used(alpha, names, v as int));
                    }
                    used.insert(v);
                },
                None => {},
            }
            i = i + 1;
        }
        let ord = crate::allocator::allocate(&used);
        let r = self.map_emoji(ord);
        proof {
            lemma_round_trip(alpha, ord as int);
            assert(seq_ord(alpha, r@) == ord as int);
            assert(!ord_is_used(alpha, names, ord as int)) by {
                if ord_is_used(alpha, names, ord as int) {
                    let j = choose|j: int|
                        0 <= j < names.len() && all_in_alphabet(alpha, #[trigger] names[j])
                            && seq_ord(alpha, names[j]) == ord as int;
                    assert(used@.contains(seq_ord(alpha, names[j]) as usize));
                }
            }
            assert forall|m: int| 1 <= m < seq_ord(alpha, r@) implies ord_is_used(
                alpha,
                names,
                m,
            ) by {
                let mu = m as usize;
                assert(used@.contains(mu));
                assert(ord_is_used(alpha, names, mu as int));
            }
        }
        r
    }
}

} // verus!
