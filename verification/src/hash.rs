//! The linear-hashing table: a string-keyed map that grows its bucket
//! array one bucket at a time.
//!
//! The table is modelled as a `Map<Seq<char>, T>`; every operation's
//! contract is stated against that model.

use crate::arith::{
    compute_mask64, compute_pow2_u64, lemma_mask64_is_mod, lemma_mod_in_second_half,
    lemma_mod_pow2_split, lemma_pow2_le_u64_bound, lemma_xor_clears_top_bit, mask64,
};
use crate::laws::{lemma_upsert_all_absent, lemma_upsert_all_found, upsert_all};
use crate::strutil::str_eq;
use vstd::arithmetic::div_mod::{lemma_mod_bound, lemma_mod_multiples_basic};
use vstd::arithmetic::power2::{lemma2_to64, lemma_pow2_adds, lemma_pow2_pos, pow2};
use vstd::prelude::*;
use vstd::string::{StringExecFns, StringSliceAdditionalSpecFns};

verus! {

/// Number of buckets the table starts with.
pub const NHASH: usize = 32;

/// Multiplier of the rolling polynomial hash.
pub const MULTIPLIER: u64 = 31;

/// One stored entry: an owned key and its value.
#[derive(Clone, Debug)]
pub struct NameVal<T: Clone> {
    name: String,
    value: T,
}

impl<T: Clone> NameVal<T> {
    /// The entry's key, as a character sequence.
    pub closed spec fn key(self) -> Seq<char> {
        self.name@
    }

    /// The entry's value.
    pub closed spec fn val(self) -> T {
        self.value
    }
}

/// One step of the rolling hash, in wrapping 64-bit arithmetic.
pub open spec fn hash_step(h: u64, byte: u8) -> u64 {
    vstd::wrapping::u64_specs::wrapping_add(
        vstd::wrapping::u64_specs::wrapping_mul(h, MULTIPLIER),
        byte as u64,
    )
}

/// The rolling polynomial hash of a byte sequence.
pub open spec fn hash_bytes(bytes: Seq<u8>) -> u64
    decreases bytes.len(),
{
    if bytes.len() == 0 {
        0u64
    } else {
        hash_step(hash_bytes(bytes.drop_last()), bytes.last())
    }
}

/// The hash of a key is the rolling hash of its UTF-8 encoding.
pub open spec fn key_hash(key: Seq<char>) -> u64 {
    hash_bytes(vstd::utf8::encode_utf8(key))
}

/// The bucket a key addresses at depth `bits` in a table of `nbuckets`
/// buckets: the low `bits` bits of its hash, with the top addressing
/// bit cleared when they point past the last bucket.
pub open spec fn bucket_index(key: Seq<char>, bits: nat, nbuckets: nat) -> nat
    recommends
        1 <= bits <= 64,
{
    let m = (key_hash(key) as nat) % pow2(bits);
    if m < nbuckets {
        m
    } else {
        (m - pow2((bits - 1) as nat)) as nat
    }
}


/// Under the table invariant's arithmetic, every key addresses an
/// existing bucket.
pub proof fn lemma_bucket_index_in_range(k: Seq<char>, bits: nat, n: nat)
    requires
        1 <= bits <= 64,
        pow2((bits - 1) as nat) < n,
    ensures
        bucket_index(k, bits, n) < n,
{
    let p = pow2((bits - 1) as nat);
    lemma_pow2_pos((bits - 1) as nat);
    lemma_pow2_pos(bits);
    lemma_pow2_adds((bits - 1) as nat, 1);
    lemma2_to64();
    assert(pow2(bits) == 2 * p);
    lemma_mod_bound(key_hash(k) as int, pow2(bits) as int);
}

/// Index of the first entry carrying the given key in a bucket, or -1.
pub open spec fn bucket_find<T: Clone>(b: Seq<NameVal<T>>, k: Seq<char>) -> int
    decreases b.len(),
{
    if b.len() == 0 {
        -1
    } else if b[0].key() == k {
        0
    } else if bucket_find(b.drop_first(), k) < 0 {
        -1
    } else {
        bucket_find(b.drop_first(), k) + 1
    }
}

/// What `bucket_find` returns: a valid index of an entry with the key,
/// the first such, or -1 when the bucket holds no such entry.
pub proof fn lemma_bucket_find_props<T: Clone>(b: Seq<NameVal<T>>, k: Seq<char>)
    ensures
        bucket_find(b, k) >= 0 ==> bucket_find(b, k) < b.len() && b[bucket_find(b, k)].key() == k,
        bucket_find(b, k) < 0 ==> forall|j: int| 0 <= j < b.len() ==> b[j].key() != k,
        forall|j: int| 0 <= j < bucket_find(b, k) ==> b[j].key() != k,
    decreases b.len(),
{
    if b.len() > 0 && b[0].key() != k {
        lemma_bucket_find_props(b.drop_first(), k);
        assert(forall|j: int| 0 < j < b.len() ==> b[j] == b.drop_first()[j - 1]);
    }
}

/// `bucket_find` depends only on the sequence of key views.
pub proof fn lemma_bucket_find_same_names<T: Clone>(
    b1: Seq<NameVal<T>>,
    b2: Seq<NameVal<T>>,
    k: Seq<char>,
)
    requires
        b1.len() == b2.len(),
        forall|j: int| 0 <= j < b1.len() ==> b1[j].key() == b2[j].key(),
    ensures
        bucket_find(b1, k) == bucket_find(b2, k),
    decreases b1.len(),
{
    if b1.len() > 0 {
        assert(forall|j: int| 0 <= j < b1.len() - 1 ==> b1.drop_first()[j] == b1[j + 1]);
        assert(forall|j: int| 0 <= j < b2.len() - 1 ==> b2.drop_first()[j] == b2[j + 1]);
        lemma_bucket_find_same_names(b1.drop_first(), b2.drop_first(), k);
    }
}

/// In a bucket whose first match for the key stands at `i`,
/// `bucket_find` returns `i`.
pub proof fn lemma_bucket_find_at<T: Clone>(b: Seq<NameVal<T>>, k: Seq<char>, i: int)
    requires
        0 <= i < b.len(),
        b[i].key() == k,
        forall|j: int| 0 <= j < i ==> b[j].key() != k,
    ensures
        bucket_find(b, k) == i,
    decreases b.len(),
{
    if i > 0 {
        assert(forall|j: int| 0 <= j < b.len() - 1 ==> b.drop_first()[j] == b[j + 1]);
        lemma_bucket_find_at(b.drop_first(), k, i - 1);
    }
}

/// Appending an entry with a different key leaves `bucket_find` as it was.
pub proof fn lemma_bucket_find_push_other<T: Clone>(
    b: Seq<NameVal<T>>,
    e: NameVal<T>,
    k: Seq<char>,
)
    requires
        e.key() != k,
    ensures
        bucket_find(b.push(e), k) == bucket_find(b, k),
    decreases b.len(),
{
    if b.len() == 0 {
        assert(b.push(e)[0] == e);
        assert(b.push(e).len() == 1);
        assert(b.push(e).drop_first().len() == 0);
        assert(bucket_find(b.push(e).drop_first(), k) == -1);
    } else {
        assert(b.push(e)[0] == b[0]);
        assert(b.push(e).drop_first() =~= b.drop_first().push(e));
        lemma_bucket_find_push_other(b.drop_first(), e, k);
    }
}

/// The key–value pairs a bucket holds.
pub open spec fn entries_kv<T: Clone>(b: Seq<NameVal<T>>) -> Seq<(Seq<char>, T)> {
    b.map_values(|e: NameVal<T>| (e.key(), e.val()))
}


/// The bits of a word, most significant first, as characters.
pub open spec fn spec_bit_string(bits: usize) -> Seq<char> {
    Seq::new(
        usize::BITS as nat,
        |j: int|
            if (bits >> (((usize::BITS - 1) as int - j) as usize)) & 1 == 1 {
                '1'
            } else {
                '0'
            },
    )
}

/// Renders a word as its full-width binary representation, most
/// significant bit first.
#[verifier::loop_isolation(false)]
pub fn bit_string(bits: usize) -> (r: String)
    ensures
        r@ == spec_bit_string(bits),
{
    let mut bstr = String::new();
    let width: usize = (usize::BITS as usize);
    let mut i: usize = width;
    proof {
        reveal_strlit("0");
        reveal_strlit("1");
    }
    while i > 0
        invariant
            i <= width,
            width == usize::BITS,
            bstr@.len() == width - i,
            forall|j: int| 0 <= j < bstr@.len() ==> bstr@[j] == spec_bit_string(bits)[j],
        decreases i,
    {
        i = i - 1;
        if (bits >> i) & 1 == 1 {
            bstr.append("1");
        } else {
            bstr.append("0");
        }
        proof {
            assert(bstr@[(width - i - 1) as int] == spec_bit_string(bits)[(width - i - 1) as int]);
        }
    }
    proof {
        assert(bstr@ =~= spec_bit_string(bits));
    }
    bstr
}

/// A string-keyed table, grown incrementally by linear hashing.
pub struct Hash<T: Clone> {
    table: Vec<Vec<NameVal<T>>>,
    bits: usize,
    split_bucket: usize,
}

impl<T: Clone> Hash<T> {
    /// How many buckets the table currently has.
    pub closed spec fn num_buckets(self) -> nat {
        self.table@.len()
    }

    /// The current address width in bits.
    pub closed spec fn spec_bits(self) -> nat {
        self.bits as nat
    }

    /// The bucket due to split next.
    pub closed spec fn spec_split_bucket(self) -> nat {
        self.split_bucket as nat
    }

    /// The entries of bucket `i`.
    pub closed spec fn bucket(self, i: int) -> Seq<NameVal<T>> {
        self.table@[i]@
    }

    /// Well-formedness: the depth/bucket-count/split-pointer bookkeeping
    /// is consistent, every entry sits in the bucket its key addresses,
    /// and no bucket holds a key twice.
    pub closed spec fn wf(self) -> bool {
        let n = self.num_buckets();
        &&& 1 <= self.bits <= 64
        &&& pow2((self.bits - 1) as nat) < n
        &&& n <= pow2(self.bits as nat)
        &&& self.split_bucket as nat == n % pow2((self.bits - 1) as nat)
        &&& forall|i: int, j: int|
            0 <= i < n && 0 <= j < self.bucket(i).len() ==> bucket_index(
                (#[trigger] self.bucket(i)[j]).key(),
                self.bits as nat,
                n,
            ) == i
        &&& forall|i: int, j1: int, j2: int|
            #![trigger self.bucket(i)[j1], self.bucket(i)[j2]]
            0 <= i < n && 0 <= j1 < j2 < self.bucket(i).len() ==> self.bucket(i)[j1].key()
                != self.bucket(i)[j2].key()
    }
}

impl<T: Clone> View for Hash<T> {
    type V = Map<Seq<char>, T>;

    /// The map the table represents: each key is looked for in the one
    /// bucket it addresses.
    closed spec fn view(&self) -> Map<Seq<char>, T> {
        Map::new(
            |k: Seq<char>|
                {
                    let i = bucket_index(k, self.bits as nat, self.num_buckets()) as int;
                    i < self.num_buckets() && bucket_find(self.bucket(i), k) >= 0
                },
            |k: Seq<char>|
                {
                    let i = bucket_index(k, self.bits as nat, self.num_buckets()) as int;
                    self.bucket(i)[bucket_find(self.bucket(i), k)].val()
                },
        )
    }
}

impl<T: Clone> Hash<T> {
    /// Creates the table: 32 empty buckets, 5 address bits, split
    /// pointer at bucket 0. Represents the empty map.
    pub fn new() -> (r: Self)
        ensures
            r.wf(),
            r@ == Map::<Seq<char>, T>::empty(),
            r.num_buckets() == 32,
            r.spec_bits() == 5,
            r.spec_split_bucket() == 0,
    {
        let mut hash_vec: Vec<Vec<NameVal<T>>> = Vec::with_capacity(NHASH);
        let mut i: usize = 0;
        while i < NHASH
            invariant
                i <= NHASH,
                hash_vec@.len() == i,
                forall|j: int| 0 <= j < i ==> (#[trigger] hash_vec@[j])@.len() == 0,
            decreases NHASH - i,
        {
            hash_vec.push(Vec::new());
            i += 1;
        }
        let r = Hash { table: hash_vec, bits: 5, split_bucket: 0 };
        proof {
            lemma2_to64();
            assert(32nat % 16nat == 0nat);
            assert(r.wf());
            assert(r@ =~= Map::<Seq<char>, T>::empty());
        }
        r
    }

    /// The current bucket count (not the entry count).
    pub fn len(&self) -> (n: usize)
        ensures
            n as nat == self.num_buckets(),
    {
        self.table.len()
    }

    /// Computes the bucket the key addresses.
    fn hash(&self, name: &str) -> (h: usize)
        requires
            self.wf(),
        ensures
            h as nat == bucket_index(name@, self.spec_bits(), self.num_buckets()),
            (h as nat) < self.num_buckets(),
    {
        let bs = name.as_bytes();
        let blen = bs.len();
        let mut hv: u64 = 0;
        let mut i: usize = 0;
        while i < blen
            invariant
                i <= blen,
                blen == bs@.len(),
                bs@ == name.spec_bytes(),
                hv == hash_bytes(bs@.take(i as int)),
            decreases blen - i,
        {
            hv = hv.wrapping_mul(MULTIPLIER).wrapping_add(bs[i] as u64);
            proof {
                assert(bs@.take(i + 1).drop_last() =~= bs@.take(i as int));
                assert(bs@.take(i + 1).last() == bs@[i as int]);
            }
            i += 1;
        }
        proof {
            assert(bs@.take(blen as int) =~= bs@);
            assert(hv == key_hash(name@));
        }
        let mask = compute_mask64(self.bits);
        let m = hv & mask;
        let n = self.table.len();
        proof {
            lemma_mask64_is_mod(hv, self.bits as nat);
            lemma_pow2_pos(self.bits as nat);
            lemma_mod_bound(hv as int, pow2(self.bits as nat) as int);
            assert(n as u64 as nat == n as nat);
            assert(m as nat == (hv as nat) % pow2(self.bits as nat));
            assert((m as nat) < pow2(self.bits as nat));
        }
        if m < n as u64 {
            m as usize
        } else {
            let top = compute_pow2_u64(self.bits - 1);
            proof {
                let b = (self.bits - 1) as nat;
                lemma_pow2_pos(b);
                assert(b + 1 == self.bits as nat);
                assert(pow2(b) < (n as nat));
                assert((m as nat) >= (n as nat));
                lemma_xor_clears_top_bit(m, b);
                assert((m ^ top) as nat == m as nat - pow2(b));
                lemma_pow2_adds(b, 1);
                lemma2_to64();
                assert(pow2(b + 1) == pow2(b) * 2);
                assert(((m ^ top) as nat) < (n as nat));
            }
            (m ^ top) as usize
        }
    }

    /// Looks the key up; returns a reference to its value, or nothing
    /// when the table does not hold the key.
    pub fn lookup<'a>(&'a self, name: &str) -> (r: Option<&'a T>)
        requires
            self.wf(),
        ensures
            match r {
                Some(v) => self@.contains_key(name@) && *v == self@[name@],
                None => !self@.contains_key(name@),
            },
    {
        let h = self.hash(name);
        let blen = self.table[h].len();
        let mut i: usize = 0;
        while i < blen
            invariant
                self.wf(),
                (h as nat) < self.num_buckets(),
                h as nat == bucket_index(name@, self.spec_bits(), self.num_buckets()),
                blen == self.bucket(h as int).len(),
                i <= blen,
                forall|j: int| 0 <= j < i ==> self.bucket(h as int)[j].key() != name@,
            decreases blen - i,
        {
            if str_eq(self.table[h][i].name.as_str(), name) {
                proof {
                    lemma_bucket_find_at(self.bucket(h as int), name@, i as int);
                }
                return Some(&self.table[h][i].value);
            }
            i += 1;
        }
        proof {
            lemma_bucket_find_props(self.bucket(h as int), name@);
            if bucket_find(self.bucket(h as int), name@) >= 0 {
                assert(false);
            }
        }
        None
    }

    /// Puts the entry in the bucket its key addresses: overwrites the
    /// value of a matching key in place, else appends. Never splits.
    /// Returns whether the key was new, and the addressed bucket's new
    /// entry count.
    #[verifier::rlimit(50)]
    #[verifier::loop_isolation(false)]
    fn place(&mut self, name: String, value: T) -> (r: (bool, usize))
        requires
            old(self).wf(),
        ensures
            final(self).wf(),
            final(self)@ == old(self)@.insert(name@, value),
            final(self).spec_bits() == old(self).spec_bits(),
            final(self).spec_split_bucket() == old(self).spec_split_bucket(),
            final(self).num_buckets() == old(self).num_buckets(),
            r.0 == !old(self)@.contains_key(name@),
            r.1 as nat == old(self).bucket(
                bucket_index(name@, old(self).spec_bits(), old(self).num_buckets()) as int,
            ).len() + (if r.0 {
                1int
            } else {
                0int
            }),
    {
        let ghost pre = *self;
        let ghost k = name@;
        let h = self.hash(name.as_str());
        let ghost b0 = self.bucket(h as int);
        let blen = self.table[h].len();
        let mut i: usize = 0;
        while i < blen
            invariant
                *self == pre,
                pre.wf(),
                k == name@,
                (h as nat) < pre.num_buckets(),
                h as nat == bucket_index(k, pre.spec_bits(), pre.num_buckets()),
                b0 == pre.bucket(h as int),
                blen == b0.len(),
                i <= blen,
                forall|j: int| 0 <= j < i ==> b0[j].key() != k,
            decreases blen - i,
        {
            if str_eq(self.table[h][i].name.as_str(), name.as_str()) {
                proof {
                    assert(b0[i as int].key() == k);
                    lemma_bucket_find_at(b0, k, i as int);
                }
                let entry = &mut self.table[h][i];
                entry.value = value;
                proof {
                    self.lemma_place_overwrite(pre, h as int, i as int, k, value);
                }
                return (false, blen);
            }
            i += 1;
        }
        self.table[h].push(NameVal { name, value });
        proof {
            lemma_bucket_find_props(b0, k);
            if bucket_find(b0, k) >= 0 {
                assert(false);
            }
            self.lemma_place_push(pre, h as int, k, value);
        }
        let new_len = self.table[h].len();
        (true, new_len)
    }

    /// After overwriting the value of the entry at `(h, i)`, the table
    /// is still well formed and represents the updated map.
    proof fn lemma_place_overwrite(self, pre: Self, h: int, i: int, k: Seq<char>, value: T)
        requires
            pre.wf(),
            0 <= h < pre.num_buckets(),
            h as nat == bucket_index(k, pre.spec_bits(), pre.num_buckets()),
            0 <= i < pre.bucket(h).len(),
            pre.bucket(h)[i].key() == k,
            forall|j: int| 0 <= j < i ==> pre.bucket(h)[j].key() != k,
            self.bits == pre.bits,
            self.split_bucket == pre.split_bucket,
            self.num_buckets() == pre.num_buckets(),
            forall|j: int| 0 <= j < pre.num_buckets() && j != h ==> self.bucket(j) == pre.bucket(j),
            self.bucket(h) == pre.bucket(h).update(
                i,
                NameVal { name: pre.bucket(h)[i].name, value },
            ),
        ensures
            self.wf(),
            self@ == pre@.insert(k, value),
    {
        let n = pre.num_buckets();
        assert forall|ii: int, j: int|
            0 <= ii < n && 0 <= j < self.bucket(ii).len() implies bucket_index(
            (#[trigger] self.bucket(ii)[j]).key(),
            self.bits as nat,
            n,
        ) == ii by {
            if ii == h {
                assert(self.bucket(h)[j].key() == pre.bucket(h)[j].key());
            }
        }
        assert forall|ii: int, j1: int, j2: int|
            #![trigger self.bucket(ii)[j1], self.bucket(ii)[j2]]
            0 <= ii < n && 0 <= j1 < j2 < self.bucket(ii).len() implies self.bucket(ii)[j1].key()
            != self.bucket(ii)[j2].key() by {
            if ii == h {
                assert(self.bucket(h)[j1].key() == pre.bucket(h)[j1].key());
                assert(self.bucket(h)[j2].key() == pre.bucket(h)[j2].key());
            }
        }
        assert(self.wf());
        lemma_bucket_find_at(pre.bucket(h), k, i);
        assert forall|k2: Seq<char>| true implies #[trigger] self@.contains_key(k2) == pre@.insert(
            k,
            value,
        ).contains_key(k2) && (self@.contains_key(k2) ==> self@[k2] == pre@.insert(k, value)[k2])
            by {
            let i2 = bucket_index(k2, pre.spec_bits(), n) as int;
            if i2 == h {
                assert(forall|j: int|
                    0 <= j < pre.bucket(h).len() ==> (#[trigger] self.bucket(h)[j]).key()
                        == pre.bucket(h)[j].key());
                lemma_bucket_find_same_names(self.bucket(h), pre.bucket(h), k2);
                if k2 == k {
                    lemma_bucket_find_at(self.bucket(h), k, i);
                } else {
                    let f = bucket_find(pre.bucket(h), k2);
                    lemma_bucket_find_props(pre.bucket(h), k2);
                    if f >= 0 {
                        assert(f != i);
                        assert(self.bucket(h)[f] == pre.bucket(h)[f]);
                    }
                }
            }
        }
        assert(self@ =~= pre@.insert(k, value));
    }

    /// After appending an entry with a key the bucket did not hold, the
    /// table is still well formed and represents the updated map.
    proof fn lemma_place_push(self, pre: Self, h: int, k: Seq<char>, value: T)
        requires
            pre.wf(),
            0 <= h < pre.num_buckets(),
            h as nat == bucket_index(k, pre.spec_bits(), pre.num_buckets()),
            forall|j: int| 0 <= j < pre.bucket(h).len() ==> pre.bucket(h)[j].key() != k,
            self.bits == pre.bits,
            self.split_bucket == pre.split_bucket,
            self.num_buckets() == pre.num_buckets(),
            forall|j: int| 0 <= j < pre.num_buckets() && j != h ==> self.bucket(j) == pre.bucket(j),
            self.bucket(h).len() == pre.bucket(h).len() + 1,
            self.bucket(h) == pre.bucket(h).push(self.bucket(h).last()),
            self.bucket(h).last().key() == k,
            self.bucket(h).last().val() == value,
        ensures
            self.wf(),
            self@ == pre@.insert(k, value),
    {
        let n = pre.num_buckets();
        let bnew = self.bucket(h);
        let bold = pre.bucket(h);
        assert(forall|j: int| 0 <= j < bold.len() ==> bnew[j] == bold[j]);
        assert forall|ii: int, j: int|
            0 <= ii < n && 0 <= j < self.bucket(ii).len() implies bucket_index(
            (#[trigger] self.bucket(ii)[j]).key(),
            self.bits as nat,
            n,
        ) == ii by {
            if ii == h && j == bold.len() {
                assert(self.bucket(h)[j] == bnew.last());
            }
        }
        assert forall|ii: int, j1: int, j2: int|
            #![trigger self.bucket(ii)[j1], self.bucket(ii)[j2]]
            0 <= ii < n && 0 <= j1 < j2 < self.bucket(ii).len() implies self.bucket(ii)[j1].key()
            != self.bucket(ii)[j2].key() by {
            if ii == h && j2 == bold.len() {
                assert(self.bucket(h)[j1] == bold[j1]);
                assert(self.bucket(h)[j2].key() == k);
            }
        }
        assert(self.wf());
        assert forall|k2: Seq<char>| true implies #[trigger] self@.contains_key(k2) == pre@.insert(
            k,
            value,
        ).contains_key(k2) && (self@.contains_key(k2) ==> self@[k2] == pre@.insert(k, value)[k2])
            by {
            let i2 = bucket_index(k2, pre.spec_bits(), n) as int;
            if i2 == h {
                if k2 == k {
                    lemma_bucket_find_at(bnew, k, bold.len() as int);
                } else {
                    lemma_bucket_find_push_other(bold, bnew.last(), k2);
                    assert(bnew =~= bold.push(bnew.last()));
                    let f = bucket_find(bold, k2);
                    lemma_bucket_find_props(bold, k2);
                    if f >= 0 {
                        assert(bnew[f] == bold[f]);
                    }
                }
            }
        }
        assert(self@ =~= pre@.insert(k, value));
    }

    /// Removes the key's entry from the bucket it addresses, keeping
    /// the order of the remaining entries, and returns its value; the
    /// bucket count never changes.
    #[verifier::rlimit(50)]
    #[verifier::loop_isolation(false)]
    pub fn remove(&mut self, name: &str) -> (r: Option<T>)
        requires
            old(self).wf(),
        ensures
            final(self).wf(),
            final(self)@ == old(self)@.remove(name@),
            final(self).num_buckets() == old(self).num_buckets(),
            final(self).spec_bits() == old(self).spec_bits(),
            final(self).spec_split_bucket() == old(self).spec_split_bucket(),
            match r {
                Some(v) => old(self)@.contains_key(name@) && v == old(self)@[name@],
                None => !old(self)@.contains_key(name@),
            },
    {
        let ghost pre = *self;
        let ghost k = name@;
        let h = self.hash(name);
        let ghost b0 = self.bucket(h as int);
        let blen = self.table[h].len();
        let mut i: usize = 0;
        while i < blen
            invariant
                *self == pre,
                i <= blen,
                forall|j: int| 0 <= j < i ==> b0[j].key() != k,
            decreases blen - i,
        {
            if str_eq(self.table[h][i].name.as_str(), name) {
                proof {
                    lemma_bucket_find_at(b0, k, i as int);
                }
                let bucket_ref = &mut self.table[h];
                let entry = bucket_ref.remove(i);
                proof {
                    self.lemma_remove_at(pre, h as int, i as int, k);
                }
                return Some(entry.value);
            }
            i += 1;
        }
        proof {
            lemma_bucket_find_props(b0, k);
            if bucket_find(b0, k) >= 0 {
                assert(false);
            }
            assert(self@ =~= pre@.remove(k));
        }
        None
    }

    /// After taking the entry at `(h, i)` out of its bucket, the table
    /// is still well formed and represents the map without that key.
    proof fn lemma_remove_at(self, pre: Self, h: int, i: int, k: Seq<char>)
        requires
            pre.wf(),
            0 <= h < pre.num_buckets(),
            h as nat == bucket_index(k, pre.spec_bits(), pre.num_buckets()),
            0 <= i < pre.bucket(h).len(),
            pre.bucket(h)[i].key() == k,
            forall|j: int| 0 <= j < i ==> pre.bucket(h)[j].key() != k,
            self.bits == pre.bits,
            self.split_bucket == pre.split_bucket,
            self.num_buckets() == pre.num_buckets(),
            forall|j: int| 0 <= j < pre.num_buckets() && j != h ==> self.bucket(j) == pre.bucket(j),
            self.bucket(h) == pre.bucket(h).remove(i),
        ensures
            self.wf(),
            self@ == pre@.remove(k),
    {
        let n = pre.num_buckets();
        let bold = pre.bucket(h);
        let bnew = self.bucket(h);
        assert(forall|j: int| 0 <= j < i ==> bnew[j] == bold[j]);
        assert(forall|j: int| i <= j < bnew.len() ==> bnew[j] == bold[j + 1]);
        assert forall|ii: int, j: int|
            0 <= ii < n && 0 <= j < self.bucket(ii).len() implies bucket_index(
            (#[trigger] self.bucket(ii)[j]).key(),
            self.bits as nat,
            n,
        ) == ii by {
            if ii == h {
                if j < i {
                    assert(self.bucket(h)[j] == bold[j]);
                } else {
                    assert(self.bucket(h)[j] == bold[j + 1]);
                }
            }
        }
        assert forall|ii: int, j1: int, j2: int|
            #![trigger self.bucket(ii)[j1], self.bucket(ii)[j2]]
            0 <= ii < n && 0 <= j1 < j2 < self.bucket(ii).len() implies self.bucket(ii)[j1].key()
            != self.bucket(ii)[j2].key() by {
            if ii == h {
                let p1: int = if j1 < i { j1 } else { j1 + 1 };
                let p2: int = if j2 < i { j2 } else { j2 + 1 };
                assert(self.bucket(h)[j1] == bold[p1]);
                assert(self.bucket(h)[j2] == bold[p2]);
            }
        }
        assert(self.wf());
        lemma_bucket_find_at(bold, k, i);
        assert forall|k2: Seq<char>| true implies #[trigger] self@.contains_key(k2) == pre@.remove(
            k,
        ).contains_key(k2) && (self@.contains_key(k2) ==> self@[k2] == pre@.remove(k)[k2]) by {
            let i2 = bucket_index(k2, pre.spec_bits(), n) as int;
            if i2 == h {
                if k2 == k {
                    lemma_bucket_find_props(bnew, k);
                    let f = bucket_find(bnew, k);
                    if f >= 0 {
                        if f < i {
                            assert(bnew[f] == bold[f]);
                        } else {
                            assert(bnew[f] == bold[f + 1]);
                        }
                        assert(false);
                    }
                } else {
                    lemma_bucket_find_remove_other(bold, i, k2);
                    assert(bnew =~= bold.remove(i));
                    lemma_bucket_find_props(bold, k2);
                    lemma_bucket_find_props(bnew, k2);
                }
            }
        }
        assert(self@ =~= pre@.remove(k));
    }


    /// The bit-depth invariant: the bucket count always lies above
    /// `2^(bits-1)` and at most at `2^bits`, and the split pointer
    /// stays below `2^(bits-1)`.
    pub proof fn lemma_bit_depth_invariant(self)
        requires
            self.wf(),
        ensures
            pow2((self.spec_bits() - 1) as nat) < self.num_buckets(),
            self.num_buckets() <= pow2(self.spec_bits()),
            1 <= self.spec_bits() <= 64,
            self.spec_split_bucket() < pow2((self.spec_bits() - 1) as nat),
    {
        lemma_pow2_pos((self.bits - 1) as nat);
        lemma_mod_bound(self.num_buckets() as int, pow2((self.bits - 1) as nat) as int);
    }

    /// Inserts the key with the value, or overwrites the existing
    /// key's value in place; reports whether the key was new. When an
    /// insertion leaves the addressed bucket with more than `2^bits`
    /// entries, one bucket is split.
    pub fn upsert(&mut self, name: &str, value: T) -> (is_new: bool)
        requires
            old(self).wf(),
        ensures
            final(self).wf(),
            final(self)@ == old(self)@.insert(name@, value),
            is_new == !old(self)@.contains_key(name@),
            final(self).num_buckets() >= old(self).num_buckets(),
    {
        let mask = compute_mask64(self.bits);
        let (is_new, new_count) = self.place(name.to_owned(), value);
        if is_new && (new_count - 1) as u64 > mask {
            self.split();
        }
        is_new
    }

    /// Grows the table by one bucket: clears the bucket at the split
    /// pointer, appends a fresh bucket, advances the depth bookkeeping,
    /// and re-inserts the cleared entries under the new addressing.
    /// The represented map is unchanged.
    #[verifier::rlimit(100)]
    #[verifier::loop_isolation(false)]
    fn split(&mut self)
        requires
            old(self).wf(),
        ensures
            final(self).wf(),
            final(self)@ == old(self)@,
            final(self).num_buckets() == old(self).num_buckets() + 1,
    {
        let ghost pre = *self;
        let ghost n = pre.num_buckets();
        let ghost p = pow2((pre.bits - 1) as nat);
        let sp = self.split_bucket;
        proof {
            lemma_pow2_pos((pre.bits - 1) as nat);
            lemma_mod_bound(n as int, p as int);
            assert((sp as nat) < n);
        }
        let orig_bucket = self.table.remove(sp);
        self.table.insert(sp, Vec::new());
        self.table.push(Vec::new());
        let n2 = self.table.len();
        let mask = compute_mask64(self.bits);
        proof {
            assert(n2 as nat == n + 1);
            assert(forall|j: int|
                0 <= j < n && j != sp ==> #[trigger] self.bucket(j) == pre.bucket(j));
            assert(self.bucket(sp as int).len() == 0);
            assert(self.bucket(n as int).len() == 0);
        }
        if (n2 - 1) as u64 > mask {
            proof {
                lemma_pow2_le_u64_bound(self.bits as nat);
                lemma2_to64();
                if self.bits == 64 {
                    assert(mask == u64::MAX);
                    assert(false);
                }
                assert((n2 - 1) as nat == pow2(self.bits as nat));
            }
            self.bits = self.bits + 1;
            self.split_bucket = 1;
            proof {
                lemma_pow2_adds(pre.bits as nat, 1);
                lemma2_to64();
                assert(pow2((pre.bits + 1) as nat) == 2 * pow2(pre.bits as nat));
                lemma_mod_in_second_half(n + 1, pow2((pre.bits) as nat));
            }
        } else if (n2 - 1) as u64 == mask {
            self.split_bucket = 0;
            proof {
                lemma_pow2_le_u64_bound(pre.bits as nat);
                lemma_pow2_adds((pre.bits - 1) as nat, 1);
                lemma2_to64();
                assert(n + 1 == pow2(pre.bits as nat));
                lemma_mod_multiples_basic(2, p as int);
                assert((2 * (p as int)) % (p as int) == 0);
            }
        } else {
            proof {
                lemma_pow2_le_u64_bound(pre.bits as nat);
                lemma_pow2_adds((pre.bits - 1) as nat, 1);
                lemma2_to64();
                assert(n + 1 < pow2(pre.bits as nat));
                lemma_mod_in_second_half(n, p);
                lemma_mod_in_second_half(n + 1, p);
            }
            self.split_bucket = self.split_bucket + 1;
        }
        proof {
            assert(self.spec_bits() == (if n + 1 > pow2(pre.bits as nat) {
                pre.spec_bits() + 1
            } else {
                pre.spec_bits()
            }));
            assert(self.split_bucket as nat == (n + 1) % pow2((self.bits - 1) as nat));
            assert forall|ii: int, j: int|
                0 <= ii < n + 1 && 0 <= j < self.bucket(ii).len() implies bucket_index(
                (#[trigger] self.bucket(ii)[j]).key(),
                self.bits as nat,
                n + 1,
            ) == ii by {
                assert(ii != sp && ii != n);
                assert(self.bucket(ii)[j] == pre.bucket(ii)[j]);
                lemma_addr_after_grow(
                    self.bucket(ii)[j].key(),
                    pre.spec_bits(),
                    n,
                    self.spec_bits(),
                );
            }
            assert forall|ii: int, j1: int, j2: int|
                #![trigger self.bucket(ii)[j1], self.bucket(ii)[j2]]
                0 <= ii < n + 1 && 0 <= j1 < j2 < self.bucket(ii).len() implies self.bucket(
                ii,
            )[j1].key() != self.bucket(ii)[j2].key() by {
                assert(ii != sp && ii != n);
                assert(self.bucket(ii) == pre.bucket(ii));
            }
            assert(self.wf());
            self.lemma_split_view(pre, orig_bucket@);
        }
        let ghost mid = *self;
        let mut rest = orig_bucket;
        while rest.len() > 0
            invariant
                self.wf(),
                self.spec_bits() == mid.spec_bits(),
                self.spec_split_bucket() == mid.spec_split_bucket(),
                self.num_buckets() == mid.num_buckets(),
                upsert_all(self@, entries_kv(rest@)) == pre@,
            decreases rest@.len(),
        {
            let ghost rest0 = rest@;
            let e = rest.remove(0);
            let NameVal { name: ename, value: evalue } = e;
            proof {
                assert(entries_kv(rest0)[0] == (e.key(), e.val()));
                assert(entries_kv(rest@) =~= entries_kv(rest0).drop_first());
                assert(ename@ == e.key());
            }
            let _ = self.place(ename, evalue);
            proof {
                assert(upsert_all(self@, entries_kv(rest@)) == pre@);
            }
        }
        proof {
            assert(entries_kv(rest@).len() == 0);
            assert(self@ == pre@);
        }
    }

    /// In the intermediate state of a split (split bucket cleared, new
    /// bucket appended, counters advanced), re-upserting the cleared
    /// entries restores exactly the original map.
    #[verifier::rlimit(100)]
    proof fn lemma_split_view(self, pre: Self, orig: Seq<NameVal<T>>)
        requires
            pre.wf(),
            self.wf(),
            self.num_buckets() == pre.num_buckets() + 1,
            self.spec_bits() == (if pre.num_buckets() + 1 > pow2(pre.spec_bits()) {
                pre.spec_bits() + 1
            } else {
                pre.spec_bits()
            }),
            orig == pre.bucket(pre.spec_split_bucket() as int),
            self.bucket(pre.spec_split_bucket() as int).len() == 0,
            self.bucket(pre.num_buckets() as int).len() == 0,
            forall|j: int|
                0 <= j < pre.num_buckets() && j != pre.spec_split_bucket() as int
                    ==> #[trigger] self.bucket(j) == pre.bucket(j),
        ensures
            upsert_all(self@, entries_kv(orig)) == pre@,
    {
        let n = pre.num_buckets();
        let sp = pre.spec_split_bucket() as int;
        let kv = entries_kv(orig);
        lemma_pow2_pos((pre.bits - 1) as nat);
        lemma_mod_bound(n as int, pow2((pre.bits - 1) as nat) as int);
        assert(0 <= sp < n);
        assert(forall|j: int| 0 <= j < orig.len() ==> kv[j] == (orig[j].key(), orig[j].val()));
        assert forall|k2: Seq<char>| true implies #[trigger] upsert_all(self@, kv).contains_key(k2)
            == pre@.contains_key(k2) && (pre@.contains_key(k2) ==> upsert_all(self@, kv)[k2]
            == pre@[k2]) by {
            let i_old = bucket_index(k2, pre.spec_bits(), n) as int;
            let i_new = bucket_index(k2, self.spec_bits(), n + 1) as int;
            lemma_addr_after_grow(k2, pre.spec_bits(), n, self.spec_bits());
            lemma_bucket_find_props(pre.bucket(i_old), k2);
            lemma_bucket_index_in_range(k2, pre.spec_bits(), n);
            if i_old != sp {
                assert(i_new == i_old);
                assert(0 <= i_old < n);
                assert(self.bucket(i_old) == pre.bucket(i_old));
                assert forall|j: int| 0 <= j < kv.len() implies (#[trigger] kv[j]).0 != k2 by {
                    assert(orig[j] == pre.bucket(sp)[j]);
                    assert(bucket_index(pre.bucket(sp)[j].key(), pre.spec_bits(), n) == sp);
                    if orig[j].key() == k2 {
                        assert(false);
                    }
                }
                lemma_upsert_all_absent(self@, kv, k2);
            } else {
                let f = bucket_find(orig, k2);
                lemma_bucket_find_props(orig, k2);
                assert(i_new == sp || i_new == n);
                assert(bucket_find(self.bucket(i_new), k2) < 0);
                assert(!self@.contains_key(k2));
                if f >= 0 {
                    assert forall|j: int| f < j < kv.len() implies (#[trigger] kv[j]).0 != kv[f].0
                        by {
                        assert(orig[j].key() != orig[f].key());
                    }
                    lemma_upsert_all_found(self@, kv, f);
                } else {
                    assert forall|j: int| 0 <= j < kv.len() implies (#[trigger] kv[j]).0 != k2 by {
                        assert(orig[j].key() != k2);
                    }
                    lemma_upsert_all_absent(self@, kv, k2);
                }
            }
        }
        assert(upsert_all(self@, kv) =~= pre@);
    }
}

/// Taking out an entry whose key is not `k2` does not change whether a
/// bucket holds `k2`, nor which entry carries it.
pub proof fn lemma_bucket_find_remove_other<T: Clone>(b: Seq<NameVal<T>>, i: int, k2: Seq<char>)
    requires
        0 <= i < b.len(),
        b[i].key() != k2,
    ensures
        (bucket_find(b.remove(i), k2) >= 0) == (bucket_find(b, k2) >= 0),
        bucket_find(b, k2) >= 0 ==> bucket_find(b.remove(i), k2) >= 0 && b.remove(i)[bucket_find(
            b.remove(i),
            k2,
        )] == b[bucket_find(b, k2)],
    decreases b.len(),
{
    let br = b.remove(i);
    assert(forall|j: int| 0 <= j < i ==> br[j] == b[j]);
    assert(forall|j: int| i <= j < br.len() ==> br[j] == b[j + 1]);
    if i == 0 {
        assert(br =~= b.drop_first());
        assert(forall|j: int| 0 <= j < b.len() - 1 ==> b.drop_first()[j] == b[j + 1]);
        lemma_bucket_find_props(b.drop_first(), k2);
    } else {
        assert(br[0] == b[0]);
        if b[0].key() == k2 {
        } else {
            assert(br.drop_first() =~= b.drop_first().remove(i - 1));
            assert(b.drop_first()[i - 1] == b[i]);
            lemma_bucket_find_remove_other(b.drop_first(), i - 1, k2);
            assert(forall|j: int| 0 <= j < b.len() - 1 ==> b.drop_first()[j] == b[j + 1]);
            assert(forall|j: int| 0 <= j < br.len() - 1 ==> br.drop_first()[j] == br[j + 1]);
            lemma_bucket_find_props(b.drop_first(), k2);
            lemma_bucket_find_props(b.drop_first().remove(i - 1), k2);
        }
    }
}

/// How growing the table by one bucket moves addresses: a key addressed
/// anywhere but the splitting bucket keeps its address; a key addressed
/// at the splitting bucket is re-addressed either there or to the new
/// bucket.
pub proof fn lemma_addr_after_grow(k: Seq<char>, bits: nat, n: nat, bits2: nat)
    requires
        1 <= bits <= 64,
        pow2((bits - 1) as nat) < n,
        n <= pow2(bits),
        bits2 == (if n + 1 > pow2(bits) {
            bits + 1
        } else {
            bits
        }),
        bits2 <= 64,
    ensures
        ({
            let sp = n % pow2((bits - 1) as nat);
            let i_old = bucket_index(k, bits, n);
            let i_new = bucket_index(k, bits2, n + 1);
            &&& (i_old != sp ==> i_new == i_old)
            &&& (i_old == sp ==> i_new == sp || i_new == n)
        }),
{
    let p = pow2((bits - 1) as nat);
    let h = key_hash(k) as nat;
    let m = h % pow2(bits);
    lemma_pow2_pos((bits - 1) as nat);
    lemma_pow2_pos(bits);
    lemma_pow2_adds((bits - 1) as nat, 1);
    lemma2_to64();
    assert(pow2(bits) == 2 * p);
    lemma_mod_bound(h as int, pow2(bits) as int);
    let sp = n % p;
    if n + 1 > pow2(bits) {
        assert(n == pow2(bits));
        lemma_mod_multiples_basic(2, p as int);
        assert(sp == 0);
        lemma_mod_pow2_split(h, bits);
        let m2 = h % pow2(bits2);
        assert(pow2(bits2) == 2 * pow2(bits)) by {
            lemma_pow2_adds(bits, 1);
        }
        lemma_mod_bound(h as int, pow2(bits2) as int);
        assert(bucket_index(k, bits, n) == m);
        if m2 == m {
            assert(bucket_index(k, bits2, n + 1) == m);
        } else {
            assert(m2 == m + pow2(bits));
            if m == 0 {
                assert(bucket_index(k, bits2, n + 1) == n);
            } else {
                assert(m2 >= n + 1);
                assert(bucket_index(k, bits2, n + 1) == m2 - pow2(bits));
            }
        }
    } else {
        assert(n < pow2(bits));
        lemma_mod_in_second_half(n, p);
        assert(sp == n - p);
        if m < n {
            assert(bucket_index(k, bits, n) == m);
            assert(bucket_index(k, bits2, n + 1) == m);
        } else {
            assert(bucket_index(k, bits, n) == m - p);
            if m == n {
                assert(bucket_index(k, bits, n) == sp);
                assert(bucket_index(k, bits2, n + 1) == n);
            } else {
                assert(m >= n + 1);
                assert(bucket_index(k, bits2, n + 1) == m - p);
            }
        }
    }
}

} // verus!
