//! The store codec: a versioned binary encoding of the entry
//! collection. The layout is one version byte, the entry count as
//! eight little-endian bytes, then for each entry its path length
//! (eight bytes), the path bytes, the rank (eight bytes) and the
//! last-access epoch (eight bytes). Decoding accepts exactly the
//! encodings and round-trips every collection.

use vstd::prelude::*;

use crate::entry::{Entry, EntryModel, models_of};

verus! {

/// The format version written in the first byte of the store.
pub const STORE_VERSION: u8 = 1;

/// A `u64` as eight little-endian bytes.
pub open spec fn enc_u64(x: u64) -> Seq<u8> {
    seq![
        (x & 0xff) as u8,
        ((x >> 8) & 0xff) as u8,
        ((x >> 16) & 0xff) as u8,
        ((x >> 24) & 0xff) as u8,
        ((x >> 32) & 0xff) as u8,
        ((x >> 40) & 0xff) as u8,
        ((x >> 48) & 0xff) as u8,
        ((x >> 56) & 0xff) as u8,
    ]
}

/// The `u64` held in the first eight bytes of `b`, little-endian.
pub open spec fn dec_u64(b: Seq<u8>) -> u64 {
    (b[0] as u64) | ((b[1] as u64) << 8) | ((b[2] as u64) << 16) | ((b[3] as u64) << 24) | (
    (b[4] as u64) << 32) | ((b[5] as u64) << 40) | ((b[6] as u64) << 48) | ((b[7] as u64) << 56)
}

/// The encoding of one entry.
pub open spec fn enc_entry(e: EntryModel) -> Seq<u8> {
    enc_u64(e.path.len() as u64) + e.path + enc_u64(e.rank) + enc_u64(e.last_access)
}

/// The concatenated encodings of a sequence of entries.
pub open spec fn enc_list(s: Seq<EntryModel>) -> Seq<u8>
    decreases s.len(),
{
    if s.len() == 0 {
        Seq::empty()
    } else {
        enc_entry(s[0]) + enc_list(s.drop_first())
    }
}

/// The full encoding of an entry collection.
pub open spec fn encode(s: Seq<EntryModel>) -> Seq<u8> {
    seq![STORE_VERSION] + enc_u64(s.len() as u64) + enc_list(s)
}

/// A collection the codec can represent: the count and each path
/// length fit in a `u64`.
pub open spec fn encodable(s: Seq<EntryModel>) -> bool {
    &&& s.len() <= u64::MAX
    &&& forall|i: int| 0 <= i < s.len() ==> (#[trigger] s[i]).path.len() <= u64::MAX
}

/// Decoding of one entry from the front of `b`: the entry and the
/// remaining bytes, or `None` when `b` is too short.
pub open spec fn dec_entry(b: Seq<u8>) -> Option<(EntryModel, Seq<u8>)> {
    if b.len() < 8 {
        None
    } else {
        let l = dec_u64(b) as int;
        if b.len() < 24 + l {
            None
        } else {
            Some(
                (
                    EntryModel {
                        path: b.subrange(8, 8 + l),
                        rank: dec_u64(b.skip(8 + l)),
                        last_access: dec_u64(b.skip(16 + l)),
                    },
                    b.skip(24 + l),
                ),
            )
        }
    }
}

/// Decoding of `n` entries from the front of `b`.
pub open spec fn dec_list(b: Seq<u8>, n: nat) -> Option<(Seq<EntryModel>, Seq<u8>)>
    decreases n,
{
    if n == 0 {
        Some((Seq::empty(), b))
    } else {
        match dec_entry(b) {
            None => None,
            Some((e, rest)) => match dec_list(rest, (n - 1) as nat) {
                None => None,
                Some((s, rest2)) => Some((seq![e] + s, rest2)),
            },
        }
    }
}

/// The collection encoded in `b`, or `None` when `b` is not an
/// encoding.
pub open spec fn decode(b: Seq<u8>) -> Option<Seq<EntryModel>> {
    if b.len() < 9 || b[0] != STORE_VERSION {
        None
    } else {
        let n = dec_u64(b.skip(1));
        match dec_list(b.skip(9), n as nat) {
            None => None,
            Some((s, rest)) => if rest.len() == 0 {
                Some(s)
            } else {
                None
            },
        }
    }
}

/// Reading eight little-endian bytes gives back the number they were
/// written from.
pub proof fn lemma_dec_enc_u64(x: u64, rest: Seq<u8>)
    ensures
        dec_u64(enc_u64(x) + rest) == x,
{
    let b = enc_u64(x) + rest;
    assert(b[0] == (x & 0xff) as u8);
    assert(b[1] == ((x >> 8) & 0xff) as u8);
    assert(b[2] == ((x >> 16) & 0xff) as u8);
    assert(b[3] == ((x >> 24) & 0xff) as u8);
    assert(b[4] == ((x >> 32) & 0xff) as u8);
    assert(b[5] == ((x >> 40) & 0xff) as u8);
    assert(b[6] == ((x >> 48) & 0xff) as u8);
    assert(b[7] == ((x >> 56) & 0xff) as u8);
    assert((((x & 0xff) as u8 as u64) | ((((x >> 8) & 0xff) as u8 as u64) << 8) | ((((x >> 16)
        & 0xff) as u8 as u64) << 16) | ((((x >> 24) & 0xff) as u8 as u64) << 24) | ((((x >> 32)
        & 0xff) as u8 as u64) << 32) | ((((x >> 40) & 0xff) as u8 as u64) << 40) | ((((x >> 48)
        & 0xff) as u8 as u64) << 48) | ((((x >> 56) & 0xff) as u8 as u64) << 56)) == x)
        by (bit_vector);
}

/// Decoding undoes encoding for one entry, whatever follows it.
pub proof fn lemma_dec_enc_entry(e: EntryModel, rest: Seq<u8>)
    requires
        e.path.len() <= u64::MAX,
    ensures
        dec_entry(enc_entry(e) + rest) == Some((e, rest)),
{
    let l = e.path.len() as int;
    let b = enc_entry(e) + rest;
    assert(b =~= enc_u64(e.path.len() as u64) + (e.path + enc_u64(e.rank) + enc_u64(e.last_access)
        + rest));
    lemma_dec_enc_u64(e.path.len() as u64, e.path + enc_u64(e.rank) + enc_u64(e.last_access) + rest);
    assert(dec_u64(b) as int == l);
    assert(b.len() == 24 + l + rest.len());
    assert(b.subrange(8, 8 + l) =~= e.path);
    assert(b.skip(8 + l) =~= enc_u64(e.rank) + (enc_u64(e.last_access) + rest));
    lemma_dec_enc_u64(e.rank, enc_u64(e.last_access) + rest);
    assert(b.skip(16 + l) =~= enc_u64(e.last_access) + rest);
    lemma_dec_enc_u64(e.last_access, rest);
    assert(b.skip(24 + l) =~= rest);
    let decoded = dec_entry(b)->Some_0;
    assert(decoded.0 =~= e);
    assert(decoded.1 =~= rest);
}

/// Decoding undoes encoding for a whole entry list, whatever follows.
pub proof fn lemma_dec_enc_list(s: Seq<EntryModel>, rest: Seq<u8>)
    requires
        encodable(s),
    ensures
        dec_list(enc_list(s) + rest, s.len()) == Some((s, rest)),
    decreases s.len(),
{
    if s.len() == 0 {
        assert(enc_list(s) + rest =~= rest);
        assert(dec_list(rest, 0) == Some((Seq::<EntryModel>::empty(), rest)));
        assert(s =~= Seq::<EntryModel>::empty());
    } else {
        let tail = s.drop_first();
        assert(enc_list(s) + rest =~= enc_entry(s[0]) + (enc_list(tail) + rest));
        lemma_dec_enc_entry(s[0], enc_list(tail) + rest);
        assert(encodable(tail)) by {
            assert(forall|i: int| 0 <= i < tail.len() ==> #[trigger] tail[i] == s[i + 1]);
        }
        lemma_dec_enc_list(tail, rest);
        assert(seq![s[0]] + tail =~= s);
    }
}

/// Round-trip: decoding an encoded collection gives back exactly that
/// collection.
pub proof fn lemma_round_trip(s: Seq<EntryModel>)
    requires
        encodable(s),
    ensures
        decode(encode(s)) == Some(s),
{
    let b = encode(s);
    let n = s.len() as u64;
    assert(b =~= seq![STORE_VERSION] + (enc_u64(n) + enc_list(s)));
    assert(b[0] == STORE_VERSION);
    assert(b.skip(1) =~= enc_u64(n) + enc_list(s));
    lemma_dec_enc_u64(n, enc_list(s));
    assert(b.skip(9) =~= enc_list(s) + Seq::<u8>::empty());
    lemma_dec_enc_list(s, Seq::<u8>::empty());
    assert(b.len() >= 9);
}

/// Appending one entry to a list appends its encoding.
pub proof fn lemma_enc_list_push(s: Seq<EntryModel>, e: EntryModel)
    ensures
        enc_list(s.push(e)) == enc_list(s) + enc_entry(e),
    decreases s.len(),
{
    if s.len() == 0 {
        reveal_with_fuel(enc_list, 3);
        assert(s.push(e)[0] == e);
        assert(s.push(e).drop_first() =~= Seq::<EntryModel>::empty());
        assert(enc_list(s.push(e)) =~= enc_list(s) + enc_entry(e));
    } else {
        assert(s.push(e)[0] == s[0]);
        assert(s.push(e).drop_first() =~= s.drop_first().push(e));
        lemma_enc_list_push(s.drop_first(), e);
        assert(enc_list(s.push(e)) =~= enc_list(s) + enc_entry(e));
    }
}

/// Appends the eight little-endian bytes of `x` to `out`.
fn push_u64(out: &mut Vec<u8>, x: u64)
    ensures
        final(out)@ == old(out)@ + enc_u64(x),
{
    out.push((x & 0xff) as u8);
    out.push(((x >> 8) & 0xff) as u8);
    out.push(((x >> 16) & 0xff) as u8);
    out.push(((x >> 24) & 0xff) as u8);
    out.push(((x >> 32) & 0xff) as u8);
    out.push(((x >> 40) & 0xff) as u8);
    out.push(((x >> 48) & 0xff) as u8);
    out.push(((x >> 56) & 0xff) as u8);
    assert(out@ =~= old(out)@ + enc_u64(x));
}

/// Reads the eight little-endian bytes at `pos`.
fn read_u64(bytes: &Vec<u8>, pos: usize) -> (r: u64)
    requires
        pos + 8 <= bytes@.len(),
    ensures
        r == dec_u64(bytes@.skip(pos as int)),
{
    let bl: usize = bytes.len();
    assert(pos + 8 <= bl);
    let r = (bytes[pos] as u64) | ((bytes[pos + 1] as u64) << 8) | ((bytes[pos + 2] as u64) << 16)
        | ((bytes[pos + 3] as u64) << 24) | ((bytes[pos + 4] as u64) << 32) | ((bytes[pos
        + 5] as u64) << 40) | ((bytes[pos + 6] as u64) << 48) | ((bytes[pos + 7] as u64) << 56);
    proof {
        let b = bytes@.skip(pos as int);
        assert(forall|j: int| 0 <= j < 8 ==> #[trigger] b[j] == bytes@[pos + j]);
    }
    r
}

/// Encodes the whole entry collection.
pub fn encode_entries(entries: &Vec<Entry>) -> (r: Vec<u8>)
    ensures
        r@ == encode(models_of(entries@)),
{
    let ghost models: Seq<EntryModel> = models_of(entries@);
    let mut out: Vec<u8> = Vec::new();
    out.push(STORE_VERSION);
    push_u64(&mut out, entries.len() as u64);
    assert(out@ =~= seq![STORE_VERSION] + enc_u64(models.len() as u64));
    let mut i: usize = 0;
    while i < entries.len()
        invariant
            i <= entries@.len(),
            models == models_of(entries@),
            models.len() == entries@.len(),
            out@ == seq![STORE_VERSION] + enc_u64(models.len() as u64) + enc_list(models.take(i as int)),
        decreases entries@.len() - i,
    {
        let e = &entries[i];
        push_u64(&mut out, e.path.len() as u64);
        let mut j: usize = 0;
        while j < e.path.len()
            invariant
                j <= e.path@.len(),
                e == &entries[i as int],
                i < entries@.len(),
                out@ == seq![STORE_VERSION] + enc_u64(models.len() as u64) + enc_list(
                    models.take(i as int),
                ) + enc_u64(e.path@.len() as u64) + e.path@.take(j as int),
                models == models_of(entries@),
                models.len() == entries@.len(),
            decreases e.path@.len() - j,
        {
            out.push(e.path[j]);
            assert(e.path@.take(j + 1 as int) =~= e.path@.take(j as int).push(e.path@[j as int]));
            assert(out@ =~= seq![STORE_VERSION] + enc_u64(models.len() as u64) + enc_list(
                models.take(i as int),
            ) + enc_u64(e.path@.len() as u64) + e.path@.take(j + 1 as int));
            j = j + 1;
        }
        push_u64(&mut out, e.rank);
        push_u64(&mut out, e.last_access);
        proof {
            assert(e.path@.take(e.path@.len() as int) =~= e.path@);
            assert(models[i as int] == entries@[i as int]@);
            lemma_enc_list_push(models.take(i as int), models[i as int]);
            assert(models.take(i + 1) =~= models.take(i as int).push(models[i as int]));
            assert(out@ =~= seq![STORE_VERSION] + enc_u64(models.len() as u64) + enc_list(
                models.take(i + 1),
            ));
        }
        i = i + 1;
    }
    proof {
        assert(models.take(models.len() as int) =~= models);
    }
    out
}

/// Decodes a store image; `None` when the bytes are not an encoding.
pub fn decode_entries(bytes: &Vec<u8>) -> (r: Option<Vec<Entry>>)
    ensures
        match r {
            Some(v) => decode(bytes@) == Some(models_of(v@)),
            None => decode(bytes@) is None,
        },
{
    let blen: usize = bytes.len();
    if blen < 9 {
        return None;
    }
    if bytes[0] != STORE_VERSION {
        return None;
    }
    let n: u64 = read_u64(bytes, 1);
    let ghost tail9: Seq<u8> = bytes@.skip(9);
    let mut acc: Vec<Entry> = Vec::new();
    let mut idx: u64 = 0;
    let mut pos: usize = 9;
    proof {
        assert(bytes@.skip(1).subrange(8, bytes@.len() - 1) =~= tail9);
    }
    while idx < n
        invariant
            idx <= n,
            9 <= pos <= blen,
            blen == bytes@.len(),
            n == dec_u64(bytes@.skip(1)),
            blen >= 9,
            bytes@[0] == STORE_VERSION,
            dec_list(bytes@.skip(9), n as nat) == (match dec_list(
                bytes@.skip(pos as int),
                (n - idx) as nat,
            ) {
                None => None::<(Seq<EntryModel>, Seq<u8>)>,
                Some((s, rest)) => Some((models_of(acc@) + s, rest)),
            }),
        decreases n - idx,
    {
        let ghost here: Seq<u8> = bytes@.skip(pos as int);
        let rem: usize = blen - pos;
        if rem < 8 {
            assert(dec_entry(here) is None);
            return None;
        }
        let l64: u64 = read_u64(bytes, pos);
        assert(l64 == dec_u64(here)) by {
            assert(here =~= bytes@.skip(pos as int));
        }
        if (rem as u64) < 24 || l64 > (rem as u64) - 24 {
            assert(here.len() < 24 + dec_u64(here));
            assert(dec_entry(here) is None);
            return None;
        }
        let l: usize = l64 as usize;
        let mut path: Vec<u8> = Vec::new();
        let mut j: usize = 0;
        while j < l
            invariant
                j <= l,
                pos + 24 + l <= blen,
                blen == bytes@.len(),
                path@ == bytes@.subrange(pos + 8, pos + 8 + j),
            decreases l - j,
        {
            path.push(bytes[pos + 8 + j]);
            assert(path@ =~= bytes@.subrange(pos + 8, pos + 8 + (j + 1)));
            j = j + 1;
        }
        let rank: u64 = read_u64(bytes, pos + 8 + l);
        let last_access: u64 = read_u64(bytes, pos + 16 + l);
        let e = Entry { path, rank, last_access };
        proof {
            assert(here.len() == blen - pos);
            assert(here.subrange(8, 8 + l as int) =~= bytes@.subrange(pos + 8, pos + 8 + l));
            assert(here.skip(8 + l as int) =~= bytes@.skip(pos + 8 + l));
            assert(here.skip(16 + l as int) =~= bytes@.skip(pos + 16 + l));
            assert(here.skip(24 + l as int) =~= bytes@.skip(pos + 24 + l));
            let de = dec_entry(here)->Some_0;
            assert(de.0 =~= e@);
            assert(de.1 =~= bytes@.skip(pos + 24 + l));
            assert(models_of(acc@.push(e)) =~= models_of(acc@).push(e@));
            assert(forall|s: Seq<EntryModel>| seq![e@] + s =~= models_of(acc@.push(e)).skip(
                models_of(acc@).len() as int,
            ) + s);
        }
        let ghost old_acc: Seq<Entry> = acc@;
        acc.push(e);
        proof {
            let rest = bytes@.skip(pos + 24 + l);
            assert(dec_entry(here) == Some((e@, rest)));
            match dec_list(rest, (n - idx - 1) as nat) {
                None => {
                    assert(dec_list(here, (n - idx) as nat) is None);
                },
                Some((s, r2)) => {
                    assert(dec_list(here, (n - idx) as nat) == Some((seq![e@] + s, r2)));
                    assert(models_of(old_acc) + (seq![e@] + s) =~= models_of(acc@) + s);
                },
            }
        }
        pos = pos + 24 + l;
        idx = idx + 1;
    }
    assert(dec_list(bytes@.skip(pos as int), 0) == Some(
        (Seq::<EntryModel>::empty(), bytes@.skip(pos as int)),
    ));
    assert(models_of(acc@) + Seq::<EntryModel>::empty() =~= models_of(acc@));
    if pos != blen {
        assert(bytes@.skip(pos as int).len() != 0);
        return None;
    }
    assert(bytes@.skip(pos as int).len() == 0);
    Some(acc)
}

} // verus!
