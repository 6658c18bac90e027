//! What the entries a directory lists become when one of its records is
//! written, and what a short-name entry written for a name reads back as.

use vstd::prelude::*;
use crate::fat::{DirEntryView, parse_dir, parse_entry, find_named, skipped_entry, decode_name, eq_ignore_case, ascii_lower, put_bytes,
    lower_bytes, lower_byte, encode_entry, short_name, split_base_ext, padded, upper_byte, le16, le32, le16_bytes, le32_bytes,
    law_short_name_round_trip};
use crate::dirscan::{record, delete_target};

verus! {

/// A record the directory listing shows.
pub open spec fn listed(e: Seq<u8>) -> bool {
    !skipped_entry(e) && decode_name(e) != seq!['.'] && decode_name(e) != seq!['.', '.']
}

/// The first record of `b` when `b` holds at least one.
proof fn lemma_first_record(b: Seq<u8>)
    requires
        b.len() >= 32,
    ensures
        b.take(32) == record(b, 0),
{
    assert(b.take(32) =~= record(b, 0));
}

/// A directory whose first `m` records are in use lists what those records
/// list, then what the rest lists.
pub proof fn lemma_parse_split(b: Seq<u8>, m: int)
    requires
        0 <= m,
        32 * m <= b.len(),
        forall|k: int| 0 <= k < m ==> (#[trigger] record(b, k))[0] != 0,
    ensures
        parse_dir(b) == parse_dir(b.take(32 * m)) + parse_dir(b.skip(32 * m)),
    decreases m,
{
    if m == 0 {
        assert(b.take(0) =~= Seq::<u8>::empty());
        assert(b.skip(0) =~= b);
        assert(parse_dir(Seq::<u8>::empty()) =~= Seq::<DirEntryView>::empty());
        assert(Seq::<DirEntryView>::empty() + parse_dir(b) =~= parse_dir(b));
    } else {
        let e = b.take(32);
        lemma_first_record(b);
        assert(record(b, 0)[0] != 0);
        let t = b.skip(32);
        assert forall|k: int| 0 <= k < m - 1 implies (#[trigger] record(t, k))[0] != 0 by {
            assert(record(t, k) =~= record(b, k + 1));
        }
        lemma_parse_split(t, m - 1);
        let bm = b.take(32 * m);
        assert(bm.len() >= 32);
        assert(bm.take(32) =~= e);
        assert(bm.skip(32) =~= t.take(32 * (m - 1)));
        assert(t.skip(32 * (m - 1)) =~= b.skip(32 * m));
        if skipped_entry(e) || decode_name(e) == seq!['.'] || decode_name(e) == seq!['.', '.'] {
        } else {
            assert(seq![parse_entry(e)] + parse_dir(t.take(32 * (m - 1))) + parse_dir(t.skip(32 * (m - 1))) =~= seq![parse_entry(e)]
                + (parse_dir(t.take(32 * (m - 1))) + parse_dir(t.skip(32 * (m - 1)))));
        }
    }
}

/// A directory whose first record is a listed entry lists it first.
pub proof fn lemma_parse_front(b: Seq<u8>)
    requires
        b.len() >= 32,
        record(b, 0)[0] != 0,
        listed(record(b, 0)),
    ensures
        parse_dir(b) == seq![parse_entry(record(b, 0))] + parse_dir(b.skip(32)),
{
    lemma_first_record(b);
}

/// Looking a name up in two listings one after the other.
pub proof fn lemma_find_concat(a: Seq<DirEntryView>, b: Seq<DirEntryView>, n: Seq<char>)
    ensures
        find_named(a + b, n) == match find_named(a, n) {
            Some(x) => Some(x),
            None => find_named(b, n),
        },
    decreases a.len(),
{
    if a.len() > 0 {
        assert((a + b).drop_first() =~= a.drop_first() + b);
        assert((a + b)[0] == a[0]);
        lemma_find_concat(a.drop_first(), b, n);
    } else {
        assert(a + b =~= b);
    }
}

/// A directory whose first `m` records are neither its end nor entries
/// named `n` lists nothing named `n` in them.
pub proof fn lemma_find_none(b: Seq<u8>, m: int, n: Seq<char>)
    requires
        0 <= m,
        32 * m <= b.len(),
        forall|k: int| 0 <= k < m ==> !delete_target(#[trigger] record(b, k), n),
    ensures
        find_named(parse_dir(b.take(32 * m)), n) is None,
    decreases m,
{
    if m == 0 {
        assert(b.take(0) =~= Seq::<u8>::empty());
    } else {
        let bm = b.take(32 * m);
        let e = bm.take(32);
        assert(e =~= record(b, 0));
        assert(!delete_target(record(b, 0), n));
        let t = b.skip(32);
        assert forall|k: int| 0 <= k < m - 1 implies !delete_target(#[trigger] record(t, k), n) by {
            assert(record(t, k) =~= record(b, k + 1));
        }
        lemma_find_none(t, m - 1, n);
        assert(bm.skip(32) =~= t.take(32 * (m - 1)));
        if !(skipped_entry(e) || decode_name(e) == seq!['.'] || decode_name(e) == seq!['.', '.']) {
            let ps = parse_dir(bm);
            assert(ps == seq![parse_entry(e)] + parse_dir(t.take(32 * (m - 1))));
            assert(ps[0] == parse_entry(e));
            assert(!eq_ignore_case(ps[0].name, n));
            assert(ps.drop_first() =~= parse_dir(t.take(32 * (m - 1))));
        }
    }
}

/// A directory that ends at its first record lists nothing.
pub proof fn lemma_parse_end(b: Seq<u8>)
    requires
        b.len() >= 32,
        record(b, 0)[0] == 0,
    ensures
        parse_dir(b) == Seq::<DirEntryView>::empty(),
{
    lemma_first_record(b);
}

/// The bytes of a name that are all printable ASCII are its characters.
pub proof fn lemma_ascii_utf8(n: Seq<char>)
    requires
        forall|i: int| 0 <= i < vstd::utf8::encode_utf8(n).len() ==> 0x21 <= #[trigger] vstd::utf8::encode_utf8(n)[i] <= 0x7E,
    ensures
        vstd::utf8::encode_utf8(n).len() == n.len(),
        forall|i: int| 0 <= i < n.len() ==> (#[trigger] vstd::utf8::encode_utf8(n)[i]) as u32 == n[i] as u32,
    decreases n.len(),
{
    if n.len() > 0 {
        let c = n[0] as u32;
        let enc = vstd::utf8::encode_utf8(n);
        let first = vstd::utf8::encode_scalar(c);
        let rest = vstd::utf8::encode_utf8(n.drop_first());
        assert(enc == first + rest);
        assert(first.len() >= 1);
        assert(enc[0] == first[0]);
        let f0: u8 = first[0];
        if vstd::utf8::has_width_1_encoding(c) {
            assert(f0 == (c & 0x7F) as u8);
            assert((c & 0x7F) as u8 == c) by (bit_vector)
                requires
                    c <= 0x7F,
            ;
        } else if vstd::utf8::has_width_2_encoding(c) {
            assert(f0 == 0xC0u8 | ((c >> 6u32) & 0x1Fu32) as u8);
            assert(f0 >= 0xC0) by (bit_vector)
                requires
                    f0 == 0xC0u8 | ((c >> 6u32) & 0x1Fu32) as u8,
            ;
        } else if vstd::utf8::has_width_3_encoding(c) {
            assert(f0 == 0xE0u8 | ((c >> 12u32) & 0x0Fu32) as u8);
            assert(f0 >= 0xE0) by (bit_vector)
                requires
                    f0 == 0xE0u8 | ((c >> 12u32) & 0x0Fu32) as u8,
            ;
        } else {
            assert(f0 == 0xF0u8 | ((c >> 18u32) & 0x7u32) as u8);
            assert(f0 >= 0xF0) by (bit_vector)
                requires
                    f0 == 0xF0u8 | ((c >> 18u32) & 0x7u32) as u8,
            ;
        }
        assert(first.len() == 1);
        assert forall|i: int| 0 <= i < rest.len() implies 0x21 <= #[trigger] rest[i] <= 0x7E by {
            assert(rest[i] == enc[i + 1]);
        }
        lemma_ascii_utf8(n.drop_first());
        assert forall|i: int| 0 <= i < n.len() implies (#[trigger] enc[i]) as u32 == n[i] as u32 by {
            if i > 0 {
                assert(enc[i] == rest[i - 1]);
                assert(n[i] == n.drop_first()[i - 1]);
            }
        }
    }
}

/// A name whose bytes are those of a short name reads back from its
/// entry as itself, up to ASCII case.
pub proof fn lemma_name_reads_back(n: Seq<char>)
    requires
        short_name(vstd::utf8::encode_utf8(n)),
    ensures
        eq_ignore_case(lower_bytes(vstd::utf8::encode_utf8(n)), n),
        lower_bytes(vstd::utf8::encode_utf8(n)) == seq!['.'] ==> n == seq!['.'],
        lower_bytes(vstd::utf8::encode_utf8(n)) == seq!['.', '.'] ==> n == seq!['.', '.'],
{
    let nb = vstd::utf8::encode_utf8(n);
    lemma_ascii_utf8(n);
    let lb = lower_bytes(nb);
    assert(lb.len() == nb.len());
    assert forall|i: int| 0 <= i < n.len() implies ascii_lower(lb[i]) == ascii_lower(n[i]) by {
        let b = nb[i];
        assert(b as u32 == n[i] as u32);
        assert(lb[i] == lower_byte(b));
        vstd::utf8::char_u32_cast(n[i], n[i] as u32);
    }
    if lb == seq!['.'] {
        assert(n.len() == 1);
        assert(lb[0] == lower_byte(nb[0]));
        assert(n =~= seq!['.']) by {
            vstd::utf8::char_u32_cast(n[0], n[0] as u32);
        }
    }
    if lb == seq!['.', '.'] {
        assert(n.len() == 2);
        assert(lb[0] == lower_byte(nb[0]));
        assert(lb[1] == lower_byte(nb[1]));
        assert(n =~= seq!['.', '.']) by {
            vstd::utf8::char_u32_cast(n[0], n[0] as u32);
            vstd::utf8::char_u32_cast(n[1], n[1] as u32);
        }
    }
}

/// A 16-bit value read back from its two bytes.
proof fn lemma_le16_round(v: int)
    requires
        0 <= v < 65536,
    ensures
        le16(le16_bytes(v), 0) == v,
{
    let b = le16_bytes(v);
    assert(b[0] == v % 256);
    assert(b[1] == (v / 256) % 256);
    assert(v == v % 256 + 256 * ((v / 256) % 256)) by (nonlinear_arith)
        requires
            0 <= v < 65536,
    ;
}

/// The entry a short-name record for a file or a directory describes: its
/// name lowered, a directory exactly when the directory attribute is set,
/// with the cluster and size written.
pub proof fn lemma_short_entry(nb: Seq<u8>, attrs: u8, cluster: u32, size: u32)
    requires
        short_name(nb),
        attrs == 0 || attrs == 0x10 || attrs == 0x20,
    ensures
        encode_entry(nb, attrs, cluster, size).len() == 32,
        encode_entry(nb, attrs, cluster, size)[0] != 0,
        listed(encode_entry(nb, attrs, cluster, size)) || lower_bytes(nb) == seq!['.'] || lower_bytes(nb) == seq!['.', '.'],
        !skipped_entry(encode_entry(nb, attrs, cluster, size)),
        parse_entry(encode_entry(nb, attrs, cluster, size)) == (DirEntryView {
            name: lower_bytes(nb),
            is_dir: attrs == 0x10,
            cluster,
            size,
        }),
{
    let e = encode_entry(nb, attrs, cluster, size);
    let (base, ext) = split_base_ext(nb);
    law_short_name_round_trip(nb, attrs, cluster, size);
    assert(e.len() == 32);
    assert(e[0] == padded(base, 8)[0]);
    if base.len() > 0 {
        assert(base[0] == nb[0]);
        assert(0x21 <= nb[0] <= 0x7E);
        assert(padded(base, 8)[0] == upper_byte(base[0]));
    }
    assert(e[0] != 0 && e[0] != 0xE5);
    assert(e[11] == attrs);
    assert(0x20u8 & 0x0F != 0x0F && 0x20u8 & 0x08 == 0 && 0x20u8 & 0x10 == 0) by (bit_vector);
    assert(0x10u8 & 0x0F != 0x0F && 0x10u8 & 0x08 == 0 && 0x10u8 & 0x10 != 0) by (bit_vector);
    assert(0x00u8 & 0x0F != 0x0F && 0x00u8 & 0x08 == 0 && 0x00u8 & 0x10 == 0) by (bit_vector);
    let hi = (cluster / 65536) as int;
    let lo = (cluster % 65536) as int;
    assert(e.subrange(20, 22) =~= le16_bytes(hi));
    assert(e.subrange(26, 28) =~= le16_bytes(lo));
    assert(e.subrange(28, 32) =~= le32_bytes(size));
    lemma_le16_round(hi);
    lemma_le16_round(lo);
    assert(le16(e, 20) == le16(le16_bytes(hi), 0));
    assert(le16(e, 26) == le16(le16_bytes(lo), 0));
    assert(le32(e, 28) == le32(le32_bytes(size), 0));
    crate::fat::lemma_le32_of_bytes(size);
    assert(hi * 65536 + lo == cluster);
}

/// A new directory's first cluster, holding `.` and `..` and zeros after
/// them, lists nothing.
pub proof fn lemma_dir_block_empty(b: Seq<u8>, cb: nat, c: u32, pdd: u32)
    requires
        cb >= 512,
        b == put_bytes(
            put_bytes(crate::fat::zeros(cb), 0, encode_entry(seq![0x2Eu8], 0x10, c, 0)),
            32,
            encode_entry(seq![0x2Eu8, 0x2Eu8], 0x10, pdd, 0),
        ),
    ensures
        parse_dir(b) == Seq::<DirEntryView>::empty(),
{
    let dot = encode_entry(seq![0x2Eu8], 0x10, c, 0);
    let dotdot = encode_entry(seq![0x2Eu8, 0x2Eu8], 0x10, pdd, 0);
    assert(split_base_ext(seq![0x2Eu8]) == (seq![0x2Eu8], Seq::<u8>::empty()));
    assert(split_base_ext(seq![0x2Eu8, 0x2Eu8]) == (seq![0x2Eu8, 0x2Eu8], Seq::<u8>::empty()));
    assert(short_name(seq![0x2Eu8]));
    assert(short_name(seq![0x2Eu8, 0x2Eu8]));
    law_short_name_round_trip(seq![0x2Eu8], 0x10, c, 0);
    law_short_name_round_trip(seq![0x2Eu8, 0x2Eu8], 0x10, pdd, 0);
    assert(lower_bytes(seq![0x2Eu8]) =~= seq!['.']);
    assert(lower_bytes(seq![0x2Eu8, 0x2Eu8]) =~= seq!['.', '.']);
    assert(dot.len() == 32 && dotdot.len() == 32);
    assert(b.take(32) =~= dot);
    let b1 = b.skip(32);
    assert(b1.take(32) =~= dotdot);
    let b2 = b1.skip(32);
    assert(b2.len() >= 32);
    assert(b2.take(32)[0] == 0);
    assert(parse_dir(b2) == Seq::<DirEntryView>::empty());
    assert(decode_name(dot) == seq!['.']);
    assert(decode_name(dotdot) == seq!['.', '.']);
    assert(b1.len() >= 32);
    assert(parse_dir(b1) == parse_dir(b2));
    assert(b.len() >= 32);
    assert(parse_dir(b) == parse_dir(b1));
}


/// Looking a name up finds nothing exactly when no entry has the name.
pub proof fn lemma_find_none_iff(es: Seq<DirEntryView>, n: Seq<char>)
    ensures
        find_named(es, n) is None <==> forall|i: int| 0 <= i < es.len() ==> !eq_ignore_case(#[trigger] es[i].name, n),
    decreases es.len(),
{
    if es.len() > 0 {
        lemma_find_none_iff(es.drop_first(), n);
        if find_named(es, n) is None {
            assert forall|i: int| 0 <= i < es.len() implies !eq_ignore_case(#[trigger] es[i].name, n) by {
                if i > 0 {
                    assert(es[i] == es.drop_first()[i - 1]);
                }
            }
        } else if forall|i: int| 0 <= i < es.len() ==> !eq_ignore_case(#[trigger] es[i].name, n) {
            assert(!eq_ignore_case(es[0].name, n));
            assert forall|i: int| 0 <= i < es.drop_first().len() implies !eq_ignore_case(#[trigger] es.drop_first()[i].name, n) by {
                assert(es.drop_first()[i] == es[i + 1]);
            }
        }
    }
}

/// A directory whose record `o` is deleted lists what it listed but the
/// entry of that record, when the records before it are in use.
pub proof fn lemma_parse_deleted(b: Seq<u8>, o: int)
    requires
        0 <= o,
        32 * o + 32 <= b.len(),
        forall|k: int| 0 <= k < o ==> (#[trigger] record(b, k))[0] != 0,
        record(b, o)[0] != 0,
        listed(record(b, o)),
    ensures
        parse_dir(b) == parse_dir(b.take(32 * o)) + seq![parse_entry(record(b, o))] + parse_dir(b.skip(32 * o + 32)),
        parse_dir(put_bytes(b, 32 * o, seq![0xE5u8])) == parse_dir(b.take(32 * o)) + parse_dir(b.skip(32 * o + 32)),
{
    lemma_parse_split(b, o);
    let t = b.skip(32 * o);
    assert(record(t, 0) =~= record(b, o));
    lemma_parse_front(t);
    assert(t.skip(32) =~= b.skip(32 * o + 32));
    assert(parse_dir(b.take(32 * o)) + (seq![parse_entry(record(b, o))] + parse_dir(b.skip(32 * o + 32))) =~= parse_dir(b.take(32 * o))
        + seq![parse_entry(record(b, o))] + parse_dir(b.skip(32 * o + 32)));
    let b2 = put_bytes(b, 32 * o, seq![0xE5u8]);
    assert forall|k: int| 0 <= k < o implies (#[trigger] record(b2, k))[0] != 0 by {
        assert(record(b2, k) =~= record(b, k));
    }
    lemma_parse_split(b2, o);
    assert(b2.take(32 * o) =~= b.take(32 * o));
    let t2 = b2.skip(32 * o);
    assert(t2.len() >= 32);
    assert(t2.take(32)[0] == 0xE5u8);
    assert(skipped_entry(t2.take(32)));
    assert(t2.skip(32) =~= b.skip(32 * o + 32));
}

} // verus!
