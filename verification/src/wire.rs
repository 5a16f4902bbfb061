//! Big-endian numbers, the header's fixed-width address field, and the checksum.
use vstd::prelude::*;
use vstd::utf8::encode_utf8;

verus! {

/// The two bytes of `v`, most significant first.
pub open spec fn be16(v: u16) -> Seq<u8> {
    seq![(v >> 8u16) as u8, v as u8]
}

/// The low three bytes of `v`, most significant first.
pub open spec fn be24(v: u32) -> Seq<u8> {
    seq![(v >> 16u32) as u8, (v >> 8u32) as u8, v as u8]
}

/// The four bytes of `v`, most significant first.
pub open spec fn be32(v: u32) -> Seq<u8> {
    seq![(v >> 24u32) as u8, (v >> 16u32) as u8, (v >> 8u32) as u8, v as u8]
}

/// The number that the bytes `s` spell, most significant first.
pub open spec fn be_value(s: Seq<u8>) -> nat
    decreases s.len(),
{
    if s.len() == 0 {
        0
    } else {
        be_value(s.drop_last()) * 256 + s.last() as nat
    }
}

/// The 20-byte address field: the UTF-8 bytes of `ip` right-aligned before one final zero
/// byte, with zero bytes in front.
pub open spec fn ip_field(ip: Seq<char>) -> Seq<u8> {
    let bytes = encode_utf8(ip);
    Seq::new(20, |i: int| if 19 - bytes.len() <= i < 19 { bytes[i - (19 - bytes.len())] } else { 0u8 })
}

/// One step of the 16-bit one's complement sum: add, and fold a carry back in.
pub open spec fn ones_add(sum: int, word: int) -> int {
    if sum + word > 0xFFFF {
        (sum + word) % 0x10000 + 1
    } else {
        sum + word
    }
}

/// The one's complement sum of `words`, starting from `sum`.
pub open spec fn ones_fold(sum: int, words: Seq<u16>) -> int
    decreases words.len(),
{
    if words.len() == 0 {
        sum
    } else {
        ones_add(ones_fold(sum, words.drop_last()), words.last() as int)
    }
}

pub proof fn lemma_ones_fold_bound(sum: int, words: Seq<u16>)
    requires
        0 <= sum <= 0xFFFF,
    ensures
        0 <= ones_fold(sum, words) <= 0xFFFF,
    decreases words.len(),
{
    if words.len() > 0 {
        lemma_ones_fold_bound(sum, words.drop_last());
    }
}

/// Adding a word to any running sum leaves a sum of at most `0x10000`, and of at most
/// `0xFFFF` when the sum was at most `0xFFFF`.
pub proof fn lemma_ones_add_bound(sum: int, word: int)
    requires
        sum >= 0,
        0 <= word <= 0xFFFF,
    ensures
        0 <= ones_add(sum, word) <= 0x10000,
        sum <= 0xFFFF ==> ones_add(sum, word) <= 0xFFFF,
{
}

/// Folding at least one word into any running sum leaves a sum of at most `0x10000`.
pub proof fn lemma_ones_fold_bound_any(sum: int, words: Seq<u16>)
    requires
        sum >= 0,
    ensures
        ones_fold(sum, words) >= 0,
        words.len() > 0 ==> ones_fold(sum, words) <= 0x10000,
    decreases words.len(),
{
    if words.len() > 0 {
        lemma_ones_fold_bound_any(sum, words.drop_last());
        lemma_ones_add_bound(ones_fold(sum, words.drop_last()), words.last() as int);
    }
}

pub proof fn lemma_ones_fold_push(sum: int, words: Seq<u16>, w: u16)
    ensures
        ones_fold(sum, words.push(w)) == ones_add(ones_fold(sum, words), w as int),
{
    assert(words.push(w).drop_last() =~= words);
}

pub proof fn lemma_ones_fold_append(sum: int, a: Seq<u16>, b: Seq<u16>)
    ensures
        ones_fold(sum, a + b) == ones_fold(ones_fold(sum, a), b),
    decreases b.len(),
{
    if b.len() == 0 {
        assert(a + b =~= a);
    } else {
        lemma_ones_fold_append(sum, a, b.drop_last());
        assert((a + b).drop_last() =~= a + b.drop_last());
    }
}

/// The plain total of `words`.
pub open spec fn word_total(words: Seq<u16>) -> int
    decreases words.len(),
{
    if words.len() == 0 {
        0
    } else {
        word_total(words.drop_last()) + words.last() as int
    }
}

/// The one's complement sum whose plain total is `t`: 0 only for a total of 0, else the
/// total folded into `1..=0xFFFF`.
pub open spec fn ones_value(t: int) -> int {
    if t == 0 {
        0
    } else {
        (t - 1) % 0xFFFF + 1
    }
}

#[verifier::spinoff_prover]
proof fn lemma_ones_add_value(t: int, w: int)
    requires
        t >= 0,
        0 <= w <= 0xFFFF,
    ensures
        ones_add(ones_value(t), w) == ones_value(t + w),
{
    let m = 0xFFFFint;
    if t > 0 {
        let v = ones_value(t);
        assert(1 <= v <= m);
        vstd::arithmetic::div_mod::lemma_add_mod_noop_right(w, t - 1, m);
        assert((t + w - 1) % m == ((v - 1) + w) % m);
        if v + w > 0xFFFF {
            vstd::arithmetic::div_mod::lemma_fundamental_div_mod_converse_mod(
                v + w,
                0x10000,
                1,
                v + w - 0x10000,
            );
            vstd::arithmetic::div_mod::lemma_fundamental_div_mod_converse_mod(
                v - 1 + w,
                m,
                1,
                v - 1 + w - m,
            );
        } else {
            vstd::arithmetic::div_mod::lemma_small_mod((v - 1 + w) as nat, m as nat);
        }
    } else if w > 0 {
        vstd::arithmetic::div_mod::lemma_small_mod((w - 1) as nat, m as nat);
    }
}

/// From a running sum of at most `0xFFFF`, the one's complement sum of `words` depends on
/// their plain total alone.
#[verifier::spinoff_prover]
pub proof fn lemma_ones_fold_value(sum: int, words: Seq<u16>)
    requires
        0 <= sum <= 0xFFFF,
    ensures
        ones_fold(sum, words) == ones_value(sum + word_total(words)),
    decreases words.len(),
{
    if words.len() == 0 {
        if sum > 0 {
            vstd::arithmetic::div_mod::lemma_small_mod((sum - 1) as nat, 0xFFFF);
        }
    } else {
        lemma_ones_fold_value(sum, words.drop_last());
        lemma_word_total_nonneg(words.drop_last());
        lemma_ones_add_value(sum + word_total(words.drop_last()), words.last() as int);
    }
}

pub proof fn lemma_word_total_nonneg(words: Seq<u16>)
    ensures
        word_total(words) >= 0,
    decreases words.len(),
{
    if words.len() > 0 {
        lemma_word_total_nonneg(words.drop_last());
    }
}

pub proof fn lemma_word_total_append(a: Seq<u16>, b: Seq<u16>)
    ensures
        word_total(a + b) == word_total(a) + word_total(b),
    decreases b.len(),
{
    if b.len() == 0 {
        assert(a + b =~= a);
    } else {
        lemma_word_total_append(a, b.drop_last());
        assert((a + b).drop_last() =~= a + b.drop_last());
    }
}

proof fn lemma_word_total_remove(s: Seq<u16>, i: int)
    requires
        0 <= i < s.len(),
    ensures
        word_total(s) == word_total(s.remove(i)) + s[i] as int,
{
    let s0 = s.subrange(0, i);
    let s2 = s.subrange(i + 1, s.len() as int);
    assert(s =~= s0 + seq![s[i]] + s2);
    assert(s.remove(i) =~= s0 + s2);
    lemma_word_total_append(s0 + seq![s[i]], s2);
    lemma_word_total_append(s0, seq![s[i]]);
    lemma_word_total_append(s0, s2);
    let one = seq![s[i]];
    assert(one.drop_last() =~= Seq::<u16>::empty());
    assert(one.last() == s[i]);
    assert(word_total(one) == word_total(one.drop_last()) + one.last() as int);
    assert(word_total(Seq::<u16>::empty()) == 0);
}

#[verifier::spinoff_prover]
proof fn lemma_word_total_permutation(a: Seq<u16>, b: Seq<u16>)
    requires
        a.to_multiset() == b.to_multiset(),
    ensures
        word_total(a) == word_total(b),
    decreases a.len(),
{
    broadcast use vstd::multiset::group_multiset_axioms;
    broadcast use vstd::seq_lib::group_to_multiset_ensures;

    vstd::seq_lib::to_multiset_len(a);
    vstd::seq_lib::to_multiset_len(b);
    if a.len() > 0 {
        let x = a.last();
        let a1 = a.drop_last();
        assert(a1.push(x) =~= a);
        vstd::seq_lib::to_multiset_build(a1, x);
        vstd::seq_lib::to_multiset_contains(b, x);
        assert(b.to_multiset().count(x) > 0);
        let j = choose|j: int| 0 <= j < b.len() && b[j] == x;
        vstd::seq_lib::to_multiset_remove(b, j);
        assert(b.remove(j).to_multiset() =~= a1.to_multiset());
        lemma_word_total_permutation(a1, b.remove(j));
        lemma_word_total_remove(b, j);
    } else {
        assert(b.len() == 0);
        assert(b =~= Seq::<u16>::empty());
    }
}

/// The one's complement sum does not depend on the order of its words: from a running sum
/// of at most `0xFFFF`, any two orderings of the same words fold to the same sum.
pub proof fn lemma_ones_fold_order_independent(sum: int, a: Seq<u16>, b: Seq<u16>)
    requires
        0 <= sum <= 0xFFFF,
        a.to_multiset() == b.to_multiset(),
    ensures
        ones_fold(sum, a) == ones_fold(sum, b),
{
    lemma_ones_fold_value(sum, a);
    lemma_ones_fold_value(sum, b);
    lemma_word_total_permutation(a, b);
}

/// Adding two words to a running sum of at most `0xFFFF` gives the same sum in either
/// order.
pub proof fn lemma_ones_add_swap(sum: int, x: u16, y: u16)
    requires
        0 <= sum <= 0xFFFF,
    ensures
        ones_add(ones_add(sum, x as int), y as int) == ones_add(ones_add(sum, y as int), x as int),
        ones_add(ones_add(sum, x as int), y as int) <= 0xFFFF,
{
    if sum > 0 {
        vstd::arithmetic::div_mod::lemma_small_mod((sum - 1) as nat, 0xFFFF);
    }
    assert(ones_value(sum) == sum);
    lemma_ones_add_value(sum, x as int);
    lemma_ones_add_value(sum + x, y as int);
    lemma_ones_add_value(sum, y as int);
    lemma_ones_add_value(sum + y, x as int);
    assert(sum + x + y == sum + y + x);
    if sum + x + y > 0 {
        vstd::arithmetic::div_mod::lemma_mod_pos_bound(sum + x + y - 1, 0xFFFF);
    }
}

/// Writing numbers and the address field into a byte buffer.
pub trait NumbersAsBytes {
    fn push_u16_to_u8s(&mut self, num: u16);

    /// pushes left hand 3 bytes to stack
    fn push_u24_to_u8s(&mut self, num: u32);

    fn push_u32_to_u8s(&mut self, num: u32);

    /// writes `string` into the 20-byte address field; it must take 19 bytes at most
    fn push_string_to_u8s(&mut self, string: String)
        requires
            encode_utf8(string@).len() <= 19,
    ;
}

impl NumbersAsBytes for Vec<u8> {
    fn push_u16_to_u8s(&mut self, num: u16)
        ensures
            final(self)@ == old(self)@ + be16(num),
    {
        self.push((num >> 8) as u8);
        self.push(num as u8);
        assert(self@ =~= old(self)@ + be16(num));
    }

    fn push_u24_to_u8s(&mut self, num: u32)
        ensures
            final(self)@ == old(self)@ + be24(num),
    {
        self.push((num >> 16) as u8);
        self.push((num >> 8) as u8);
        self.push(num as u8);
        assert(self@ =~= old(self)@ + be24(num));
    }

    fn push_u32_to_u8s(&mut self, num: u32)
        ensures
            final(self)@ == old(self)@ + be32(num),
    {
        self.push((num >> 24) as u8);
        self.push((num >> 16) as u8);
        self.push((num >> 8) as u8);
        self.push(num as u8);
        assert(self@ =~= old(self)@ + be32(num));
    }

    fn push_string_to_u8s(&mut self, string: String)
        ensures
            final(self)@ == old(self)@ + ip_field(string@),
    {
        let bytes = string.as_str().as_bytes();
        let ghost enc = encode_utf8(string@);
        assert(bytes@ == enc);
        let start: usize = 20 - bytes.len() - 1;
        let mut index = start;
        let mut buf: Vec<u8> = vec![0; 20];
        let mut k: usize = 0;
        while k < bytes.len()
            invariant
                bytes@ == enc,
                enc.len() <= 19,
                start == 19 - enc.len(),
                index == start + k,
                k <= bytes.len(),
                buf.len() == 20,
                forall|i: int|
                    0 <= i < 20 ==> #[trigger] buf@[i] == if start <= i < start + k {
                        enc[i - start]
                    } else {
                        0u8
                    },
            decreases bytes.len() - k,
        {
            buf.set(index, bytes[k]);
            index += 1;
            k += 1;
        }
        assert(buf@ =~= ip_field(string@));
        let ghost before = self@;
        self.append(&mut buf);
        assert(self@ =~= before + ip_field(string@));
    }
}

} // verus!
