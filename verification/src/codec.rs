//! The persistence codec: one text line per store entry, with the entry's
//! key, its `y`, `x` and `c` fields and its `neighbors` list, and the
//! optional gzip layer around the whole payload.

use vstd::prelude::*;
use vstd::utf8::is_scalar;
use crate::tile::{Tile, TileView, valid_key};
use crate::store::{TileStore, TileMap};
use crate::MapError;
use crate::num::{
    dec_digits, dec_int, is_digit, sp_parse_u64, sp_parse_i32, fmt_u64, fmt_i32, parse_u64,
    parse_i32, lemma_parse_u64_of_dec, lemma_parse_i32_of_dec,
};
use crate::keytext::{
    key_text, sp_parse_key, match_at, lemma_parse_key_of_text, lemma_parse_key_valid,
    lemma_key_text_first, key_text_of, parse_key,
};

verus! {

/// A storable entry: a valid key, coordinates that fit 32 bits, and
/// valid neighbour keys.
pub open spec fn valid_entry(k: u128, t: TileView) -> bool {
    &&& valid_key(k)
    &&& -0x8000_0000 <= t.y < 0x8000_0000
    &&& -0x8000_0000 <= t.x < 0x8000_0000
    &&& forall|q: int| 0 <= q < t.neighbors.len() ==> valid_key(#[trigger] t.neighbors[q])
}

/// The bytes of `" y="`, `" x="`, `" c="` and `" neighbors="`.
pub open spec fn field_y() -> Seq<u8> {
    seq![32u8, 121u8, 61u8]
}

/// The `" x="` field marker.
pub open spec fn field_x() -> Seq<u8> {
    seq![32u8, 120u8, 61u8]
}

/// The `" c="` field marker.
pub open spec fn field_c() -> Seq<u8> {
    seq![32u8, 99u8, 61u8]
}

/// The `" neighbors="` field marker.
pub open spec fn field_nb() -> Seq<u8> {
    seq![32u8, 110u8, 101u8, 105u8, 103u8, 104u8, 98u8, 111u8, 114u8, 115u8, 61u8]
}

/// The comma-separated textual neighbour list.
pub open spec fn encode_neighbors(nb: Seq<u128>) -> Seq<u8>
    decreases nb.len(),
{
    if nb.len() == 0 {
        Seq::empty()
    } else if nb.len() == 1 {
        key_text(nb[0])
    } else {
        key_text(nb[0]) + seq![44u8] + encode_neighbors(nb.drop_first())
    }
}

/// One encoded entry: the key, the three scalar fields, the neighbour
/// list, and a terminating newline.
pub open spec fn encode_entry(k: u128, t: TileView) -> Seq<u8> {
    key_text(k) + field_y() + dec_int(t.y) + field_x() + dec_int(t.x) + field_c() + dec_digits(
        (t.c as u32) as nat,
    ) + field_nb() + encode_neighbors(t.neighbors) + seq![10u8]
}

/// The encoded store: each entry in order.
pub open spec fn encode_entries(es: Seq<(u128, TileView)>) -> Seq<u8>
    decreases es.len(),
{
    if es.len() == 0 {
        Seq::empty()
    } else {
        encode_entry(es[0].0, es[0].1) + encode_entries(es.drop_first())
    }
}

/// Parse the neighbour list at `i`, up to and including the newline.
pub open spec fn sp_parse_neighbors(s: Seq<u8>, i: int) -> Option<(Seq<u128>, int)>
    decreases s.len() - i,
{
    if i < 0 || i >= s.len() {
        None
    } else if s[i] == 10 {
        Some((Seq::empty(), i + 1))
    } else {
        match sp_parse_key(s, i) {
            Some((k, j)) => if j < s.len() && s[j] == 44 && i < j {
                match sp_parse_neighbors(s, j + 1) {
                    Some((rest, e)) => Some((seq![k] + rest, e)),
                    None => None,
                }
            } else if j < s.len() && s[j] == 10 {
                Some((seq![k], j + 1))
            } else {
                None
            },
            None => None,
        }
    }
}

/// Parse one entry at `i`: key, fields, neighbour list, newline.
pub open spec fn sp_parse_entry(s: Seq<u8>, i: int) -> Option<(u128, TileView, int)> {
    match sp_parse_key(s, i) {
        Some((k, j0)) => if match_at(s, j0, field_y()) {
            match sp_parse_i32(s, j0 + 3) {
                Some((y, j1)) => if match_at(s, j1, field_x()) {
                    match sp_parse_i32(s, j1 + 3) {
                        Some((x, j2)) => if match_at(s, j2, field_c()) {
                            match sp_parse_u64(s, j2 + 3) {
                                Some((cv, j3)) => if cv < 0x1_0000_0000 && is_scalar(cv as u32)
                                    && match_at(s, j3, field_nb()) {
                                    match sp_parse_neighbors(s, j3 + 11) {
                                        Some((nb, e)) => Some(
                                            (
                                                k,
                                                TileView {
                                                    y,
                                                    x,
                                                    c: (cv as u32) as char,
                                                    neighbors: nb,
                                                },
                                                e,
                                            ),
                                        ),
                                        None => None,
                                    }
                                } else {
                                    None
                                },
                                None => None,
                            }
                        } else {
                            None
                        },
                        None => None,
                    }
                } else {
                    None
                },
                None => None,
            }
        } else {
            None
        },
        None => None,
    }
}

/// Parse every entry from `i` to the end of the payload.
pub open spec fn sp_parse_entries(s: Seq<u8>, i: int) -> Option<Seq<(u128, TileView)>>
    decreases s.len() - i,
{
    if i == s.len() {
        Some(Seq::empty())
    } else if i < 0 || i > s.len() {
        None
    } else {
        match sp_parse_entry(s, i) {
            Some((k, t, j)) => if i < j <= s.len() {
                match sp_parse_entries(s, j) {
                    Some(rest) => Some(seq![(k, t)] + rest),
                    None => None,
                }
            } else {
                None
            },
            None => None,
        }
    }
}

/// Parse a whole persisted payload.
pub open spec fn sp_parse_store(s: Seq<u8>) -> Option<Seq<(u128, TileView)>> {
    sp_parse_entries(s, 0)
}

/// The mapping a list of entries denotes: later entries win.
pub open spec fn map_of_entries(es: Seq<(u128, TileView)>) -> Map<u128, TileView>
    decreases es.len(),
{
    if es.len() == 0 {
        Map::empty()
    } else {
        map_of_entries(es.drop_last()).insert(es.last().0, es.last().1)
    }
}

/// Everything the neighbour parser returns is a valid key, and it always
/// makes progress.
pub proof fn lemma_parse_neighbors_valid(s: Seq<u8>, i: int)
    ensures
        sp_parse_neighbors(s, i) matches Some((nb, e)) ==> (forall|q: int|
            0 <= q < nb.len() ==> valid_key(#[trigger] nb[q])) && i < e <= s.len(),
    decreases s.len() - i,
{
    if 0 <= i < s.len() && s[i] != 10 {
        lemma_parse_key_valid(s, i);
        if sp_parse_key(s, i) is Some {
            let (k, j) = sp_parse_key(s, i)->Some_0;
            if j < s.len() && s[j] == 44 && i < j {
                lemma_parse_neighbors_valid(s, j + 1);
            }
        }
    }
}

/// Everything the entry parser returns is a storable entry, and it
/// always makes progress.
pub proof fn lemma_parse_entry_valid(s: Seq<u8>, i: int)
    ensures
        sp_parse_entry(s, i) matches Some((k, t, j)) ==> valid_entry(k, t) && i < j <= s.len(),
{
    lemma_parse_key_valid(s, i);
    if sp_parse_key(s, i) is Some {
        let (k, j0) = sp_parse_key(s, i)->Some_0;
        if match_at(s, j0, field_y()) && sp_parse_i32(s, j0 + 3) is Some {
            let (y, j1) = sp_parse_i32(s, j0 + 3)->Some_0;
            if match_at(s, j1, field_x()) && sp_parse_i32(s, j1 + 3) is Some {
                let (x, j2) = sp_parse_i32(s, j1 + 3)->Some_0;
                if match_at(s, j2, field_c()) && sp_parse_u64(s, j2 + 3) is Some {
                    let (cv, j3) = sp_parse_u64(s, j2 + 3)->Some_0;
                    lemma_parse_neighbors_valid(s, j3 + 11);
                }
            }
        }
    }
}

/// Parsing the encoded neighbour list gives the list back and stops just
/// past the newline.
proof fn lemma_parse_neighbors_of_encode(s: Seq<u8>, i: int, nb: Seq<u128>)
    requires
        0 <= i,
        forall|q: int| 0 <= q < nb.len() ==> valid_key(#[trigger] nb[q]),
        i + encode_neighbors(nb).len() < s.len(),
        forall|q: int|
            0 <= q < encode_neighbors(nb).len() ==> s[i + q] == #[trigger] encode_neighbors(nb)[q],
        s[i + encode_neighbors(nb).len()] == 10,
    ensures
        sp_parse_neighbors(s, i) == Some((nb, i + encode_neighbors(nb).len() + 1)),
    decreases nb.len(),
{
    let enc = encode_neighbors(nb);
    if nb.len() == 0 {
        assert(s[i + 0] == 10);
        assert(sp_parse_neighbors(s, i) == Some((Seq::<u128>::empty(), i + 1)));
        assert(nb =~= Seq::<u128>::empty());
    } else if nb.len() == 1 {
        let kt = key_text(nb[0]);
        lemma_key_text_first(nb[0]);
        assert(enc == kt);
        assert forall|q: int| 0 <= q < kt.len() implies s[i + q] == #[trigger] kt[q] by {
            assert(enc[q] == kt[q]);
        }
        assert(match_at(s, i, kt));
        assert(s[i + 0] == kt[0]);
        assert(s[i] != 10);
        assert(s[i + kt.len()] == 10);
        assert(!is_digit(10));
        lemma_parse_key_of_text(s, i, nb[0]);
        let j = i + kt.len();
        assert(s[j] == 10 && j < s.len());
        assert(seq![nb[0]] =~= nb);
    } else {
        let kt = key_text(nb[0]);
        let rest = nb.drop_first();
        let encr = encode_neighbors(rest);
        lemma_key_text_first(nb[0]);
        assert(enc.len() == kt.len() + 1 + encr.len());
        assert forall|q: int| 0 <= q < kt.len() implies s[i + q] == #[trigger] kt[q] by {
            assert(enc[q] == kt[q]);
        }
        assert(match_at(s, i, kt));
        assert(s[i + 0] == kt[0]);
        assert(s[i] != 10);
        assert(s[i + kt.len()] == enc[kt.len() as int]);
        assert(enc[kt.len() as int] == 44);
        assert(!is_digit(44));
        lemma_parse_key_of_text(s, i, nb[0]);
        let j = i + kt.len();
        assert(j < s.len() && s[j] == 44 && i < j);
        assert forall|q: int| 0 <= q < encr.len() implies s[j + 1 + q] == #[trigger] encr[q] by {
            assert(enc[kt.len() + 1 + q] == encr[q]);
        }
        assert(s[j + 1 + encr.len()] == 10);
        lemma_parse_neighbors_of_encode(s, j + 1, rest);
        assert(seq![nb[0]] + rest =~= nb);
    }
}

/// Parsing an encoded entry gives the entry back and stops just past its
/// newline.
proof fn lemma_parse_entry_of_encode(s: Seq<u8>, i: int, k: u128, t: TileView)
    requires
        0 <= i,
        valid_entry(k, t),
        i + encode_entry(k, t).len() <= s.len(),
        forall|q: int|
            0 <= q < encode_entry(k, t).len() ==> s[i + q] == #[trigger] encode_entry(k, t)[q],
    ensures
        sp_parse_entry(s, i) == Some((k, t, i + encode_entry(k, t).len())),
{
    broadcast use vstd::utf8::char_is_scalar, vstd::utf8::char_u32_cast;

    let enc = encode_entry(k, t);
    let kt = key_text(k);
    let dy = dec_int(t.y);
    let dx = dec_int(t.x);
    let cv = (t.c as u32) as nat;
    let dc = dec_digits(cv);
    let en = encode_neighbors(t.neighbors);
    let o1 = i + kt.len();
    let o2 = o1 + 3;
    let o3 = o2 + dy.len();
    let o4 = o3 + 3;
    let o5 = o4 + dx.len();
    let o6 = o5 + 3;
    let o7 = o6 + dc.len();
    let o8 = o7 + 11;
    let o9 = o8 + en.len();
    assert(enc.len() == kt.len() + 3 + dy.len() + 3 + dx.len() + 3 + dc.len() + 11 + en.len() + 1);
    assert forall|q: int| 0 <= q < kt.len() implies s[i + q] == #[trigger] kt[q] by {
        assert(enc[q] == kt[q]);
    }
    assert forall|q: int| 0 <= q < 3 implies s[o1 + q] == #[trigger] field_y()[q] by {
        assert(enc[kt.len() + q] == field_y()[q]);
    }
    assert forall|q: int| 0 <= q < dy.len() implies s[o2 + q] == #[trigger] dy[q] by {
        assert(enc[kt.len() + 3 + q] == dy[q]);
    }
    assert forall|q: int| 0 <= q < 3 implies s[o3 + q] == #[trigger] field_x()[q] by {
        assert(enc[kt.len() + 3 + dy.len() + q] == field_x()[q]);
    }
    assert forall|q: int| 0 <= q < dx.len() implies s[o4 + q] == #[trigger] dx[q] by {
        assert(enc[kt.len() + 3 + dy.len() + 3 + q] == dx[q]);
    }
    assert forall|q: int| 0 <= q < 3 implies s[o5 + q] == #[trigger] field_c()[q] by {
        assert(enc[kt.len() + 3 + dy.len() + 3 + dx.len() + q] == field_c()[q]);
    }
    assert forall|q: int| 0 <= q < dc.len() implies s[o6 + q] == #[trigger] dc[q] by {
        assert(enc[kt.len() + 3 + dy.len() + 3 + dx.len() + 3 + q] == dc[q]);
    }
    assert forall|q: int| 0 <= q < 11 implies s[o7 + q] == #[trigger] field_nb()[q] by {
        assert(enc[kt.len() + 3 + dy.len() + 3 + dx.len() + 3 + dc.len() + q] == field_nb()[q]);
    }
    assert forall|q: int| 0 <= q < en.len() implies s[o8 + q] == #[trigger] en[q] by {
        assert(enc[kt.len() + 3 + dy.len() + 3 + dx.len() + 3 + dc.len() + 11 + q] == en[q]);
    }
    assert(s[o9] == enc[enc.len() - 1]);
    assert(enc[enc.len() - 1] == 10);
    // the key, then each field in turn
    assert(match_at(s, i, kt));
    assert(s[o1 + 0] == field_y()[0]);
    assert(field_y()[0] == 32);
    assert(!is_digit(32));
    lemma_parse_key_of_text(s, i, k);
    assert(sp_parse_key(s, i) == Some((k, o1)));
    assert(match_at(s, o1, field_y()));
    assert(s[o3 + 0] == field_x()[0]);
    assert(field_x()[0] == 32);
    lemma_parse_i32_of_dec(s, o2, t.y);
    assert(sp_parse_i32(s, o2) == Some((t.y, o3)));
    assert(match_at(s, o3, field_x()));
    assert(s[o5 + 0] == field_c()[0]);
    assert(field_c()[0] == 32);
    lemma_parse_i32_of_dec(s, o4, t.x);
    assert(sp_parse_i32(s, o4) == Some((t.x, o5)));
    assert(match_at(s, o5, field_c()));
    assert(is_scalar(t.c as u32));
    assert(cv < 0x1_0000_0000);
    assert(s[o7 + 0] == field_nb()[0]);
    assert(field_nb()[0] == 32);
    lemma_parse_u64_of_dec(s, o6, cv);
    assert(sp_parse_u64(s, o6) == Some((cv as int, o7)));
    assert(match_at(s, o7, field_nb()));
    assert(s[o8 + en.len()] == 10);
    assert(o8 + en.len() < s.len());
    lemma_parse_neighbors_of_encode(s, o8, t.neighbors);
    assert(sp_parse_neighbors(s, o8) == Some((t.neighbors, o9 + 1)));
    assert(((cv as int) as u32) as char == t.c);
    assert(sp_parse_entry(s, i) == Some((k, t, i + enc.len())));
}

/// Parsing an encoded entry list laid end to end gives the entries back.
proof fn lemma_parse_entries_of_encode(s: Seq<u8>, i: int, es: Seq<(u128, TileView)>)
    requires
        0 <= i,
        forall|q: int| 0 <= q < es.len() ==> valid_entry((#[trigger] es[q]).0, es[q].1),
        s.len() == i + encode_entries(es).len(),
        forall|q: int|
            0 <= q < encode_entries(es).len() ==> s[i + q] == #[trigger] encode_entries(es)[q],
    ensures
        sp_parse_entries(s, i) == Some(es),
    decreases es.len(),
{
    let enc = encode_entries(es);
    if es.len() == 0 {
        assert(i == s.len());
        assert(es =~= Seq::<(u128, TileView)>::empty());
    } else {
        let e0 = encode_entry(es[0].0, es[0].1);
        let rest = es.drop_first();
        let encr = encode_entries(rest);
        assert(enc.len() == e0.len() + encr.len());
        assert forall|q: int| 0 <= q < e0.len() implies s[i + q] == #[trigger] e0[q] by {
            assert(enc[q] == e0[q]);
        }
        assert(valid_entry(es[0].0, es[0].1));
        lemma_parse_entry_of_encode(s, i, es[0].0, es[0].1);
        let j = i + e0.len();
        assert(e0.len() >= 1) by {
            assert(e0[e0.len() - 1] == 10);
        }
        assert forall|q: int| 0 <= q < encr.len() implies s[j + q] == #[trigger] encr[q] by {
            assert(enc[e0.len() + q] == encr[q]);
        }
        assert forall|q: int| 0 <= q < rest.len() implies valid_entry(
            (#[trigger] rest[q]).0,
            rest[q].1,
        ) by {
            assert(rest[q] == es[q + 1]);
        }
        lemma_parse_entries_of_encode(s, j, rest);
        assert(seq![(es[0].0, es[0].1)] + rest =~= es);
    }
}

/// Appending an entry extends the encoded payload by that entry's line.
proof fn lemma_encode_entries_push(es: Seq<(u128, TileView)>, k: u128, t: TileView)
    ensures
        encode_entries(es.push((k, t))) == encode_entries(es) + encode_entry(k, t),
    decreases es.len(),
{
    let all = es.push((k, t));
    if es.len() == 0 {
        assert(all[0] == (k, t));
        assert(all.drop_first() =~= Seq::<(u128, TileView)>::empty());
        assert(encode_entries(all) == encode_entry(all[0].0, all[0].1) + encode_entries(
            all.drop_first(),
        ));
        assert(encode_entries(Seq::<(u128, TileView)>::empty()) == Seq::<u8>::empty());
        assert(encode_entries(all) =~= encode_entry(k, t));
        assert(encode_entries(es) == Seq::<u8>::empty());
        assert(encode_entries(es) + encode_entry(k, t) =~= encode_entry(k, t));
    } else {
        assert(all[0] == es[0]);
        assert(all.drop_first() =~= es.drop_first().push((k, t)));
        lemma_encode_entries_push(es.drop_first(), k, t);
        assert(encode_entries(all) =~= encode_entries(es) + encode_entry(k, t));
    }
}

/// Appending a neighbour key extends the encoded list by a comma (when
/// the list was non-empty) and that key's text.
proof fn lemma_encode_neighbors_push(nb: Seq<u128>, k: u128)
    ensures
        nb.len() == 0 ==> encode_neighbors(nb.push(k)) == key_text(k),
        nb.len() > 0 ==> encode_neighbors(nb.push(k)) == encode_neighbors(nb) + seq![44u8]
            + key_text(k),
    decreases nb.len(),
{
    let all = nb.push(k);
    if nb.len() == 0 {
        assert(all.len() == 1);
        assert(all[0] == k);
    } else if nb.len() == 1 {
        assert(all.len() == 2);
        assert(all[0] == nb[0]);
        assert(all.drop_first() =~= seq![k]);
        assert(encode_neighbors(seq![k]) == key_text(k));
        assert(encode_neighbors(nb) == key_text(nb[0]));
        assert(encode_neighbors(all) =~= encode_neighbors(nb) + seq![44u8] + key_text(k));
    } else {
        assert(all[0] == nb[0]);
        assert(all.drop_first() =~= nb.drop_first().push(k));
        lemma_encode_neighbors_push(nb.drop_first(), k);
        assert(encode_neighbors(all) =~= encode_neighbors(nb) + seq![44u8] + key_text(k));
    }
}

/// The round-trip law at the text level: a payload encoded from
/// storable entries parses back to exactly those entries.
pub proof fn lemma_store_roundtrip(es: Seq<(u128, TileView)>)
    requires
        forall|q: int| 0 <= q < es.len() ==> valid_entry((#[trigger] es[q]).0, es[q].1),
    ensures
        sp_parse_store(encode_entries(es)) == Some(es),
{
    lemma_parse_entries_of_encode(encode_entries(es), 0, es);
}

/// Relies on core's char::from_u32: a `Some` for every Unicode scalar
/// value, holding the character with exactly that value.
pub assume_specification[ char::from_u32 ](v: u32) -> (r: Option<char>)
    ensures
        r is Some <==> is_scalar(v),
        r matches Some(c) ==> c == v as char,
;

/// The entries of a store, in insertion order, as the codec writes them.
pub open spec fn store_entries(m: &TileMap) -> Seq<(u128, TileView)> {
    let ks = m.map_game_objects.entry_keys();
    Seq::new(ks.len(), |i: int| (ks[i], m.objects()[ks[i]]))
}

/// A list of entries drawn from a mapping denotes that mapping,
/// restricted to the listed keys.
proof fn lemma_map_of_drawn_entries(mm: Map<u128, TileView>, ks: Seq<u128>)
    requires
        forall|i: int| 0 <= i < ks.len() ==> mm.dom().contains(#[trigger] ks[i]),
    ensures
        ({
            let es = Seq::new(ks.len(), |i: int| (ks[i], mm[ks[i]]));
            &&& map_of_entries(es).dom() == ks.to_set()
            &&& forall|k: u128|
                ks.to_set().contains(k) ==> #[trigger] map_of_entries(es)[k] == mm[k]
        }),
    decreases ks.len(),
{
    let es = Seq::new(ks.len(), |i: int| (ks[i], mm[ks[i]]));
    if ks.len() == 0 {
        assert(map_of_entries(es).dom() =~= ks.to_set()) by {
            assert forall|k: u128| ks.to_set().contains(k) implies false by {
                let i = choose|i: int| 0 <= i < ks.len() && ks[i] == k;
            }
        }
    } else {
        let kp = ks.drop_last();
        let ep = Seq::new(kp.len(), |i: int| (kp[i], mm[kp[i]]));
        assert forall|i: int| 0 <= i < kp.len() implies mm.dom().contains(#[trigger] kp[i]) by {
            assert(kp[i] == ks[i]);
        }
        lemma_map_of_drawn_entries(mm, kp);
        assert(es.drop_last() =~= ep);
        assert(es.last() == (ks.last(), mm[ks.last()]));
        assert(map_of_entries(es) == map_of_entries(ep).insert(ks.last(), mm[ks.last()]));
        assert(ks.to_set() =~= kp.to_set().insert(ks.last())) by {
            assert forall|e: u128| ks.to_set().contains(e) implies kp.to_set().insert(
                ks.last(),
            ).contains(e) by {
                let i = choose|i: int| 0 <= i < ks.len() && ks[i] == e;
                if i < kp.len() {
                    assert(kp[i] == e);
                    assert(kp.to_set().contains(e));
                }
            }
            assert forall|e: u128| kp.to_set().insert(ks.last()).contains(e) implies ks.to_set()
                .contains(e) by {
                if e == ks.last() {
                    assert(ks[ks.len() - 1] == e);
                } else {
                    let i = choose|i: int| 0 <= i < kp.len() && kp[i] == e;
                    assert(ks[i] == e);
                }
            }
        }
        assert(map_of_entries(es).dom() =~= ks.to_set());
        assert forall|k: u128| ks.to_set().contains(k) implies #[trigger] map_of_entries(es)[k]
            == mm[k] by {
            if k != ks.last() {
                let i = choose|i: int| 0 <= i < ks.len() && ks[i] == k;
                assert(kp[i] == k);
                assert(kp.to_set().contains(k));
            }
        }
    }
}

/// A well-formed store denotes exactly its own mapping when written out
/// entry by entry.
pub proof fn lemma_map_of_store_entries(m: &TileMap)
    requires
        m.wf(),
    ensures
        map_of_entries(store_entries(m)) == m.objects(),
{
    m.map_game_objects.lemma_wf_entries();
    let ks = m.map_game_objects.entry_keys();
    lemma_map_of_drawn_entries(m.objects(), ks);
    assert(map_of_entries(store_entries(m)) =~= m.objects());
}

/// The round-trip law, stated of a whole store: the payload written for
/// any well-formed store parses back to the same entries, and those
/// entries denote exactly the store's mapping — so a load after a save
/// rebuilds every tile, field for field.
pub proof fn lemma_save_load_roundtrip(m: &TileMap)
    requires
        m.wf(),
    ensures
        sp_parse_store(encode_entries(store_entries(m))) == Some(store_entries(m)),
        map_of_entries(store_entries(m)) == m.objects(),
{
    m.map_game_objects.lemma_wf_entries();
    let es = store_entries(m);
    let ks = m.map_game_objects.entry_keys();
    assert forall|q: int| 0 <= q < es.len() implies valid_entry(
        (#[trigger] es[q]).0,
        es[q].1,
    ) by {
        assert(m.objects().dom().contains(ks[q]));
        assert(es[q] == (ks[q], m.objects()[ks[q]]));
    }
    lemma_store_roundtrip(es);
    lemma_map_of_store_entries(m);
}

/// An owned copy of a byte vector.
fn copy_bytes(v: &Vec<u8>) -> (r: Vec<u8>)
    ensures
        r@ == v@,
{
    let mut r: Vec<u8> = Vec::new();
    let mut i: usize = 0;
    while i < v.len()
        invariant
            i <= v@.len(),
            r@ == v@.take(i as int),
        decreases v@.len() - i,
    {
        let b = v[i];
        r.push(b);
        proof {
            assert(r@ =~= v@.take(i as int + 1));
        }
        i = i + 1;
    }
    proof {
        assert(v@.take(v@.len() as int) =~= v@);
    }
    r
}

/// Append a byte vector to another.
fn append_bytes(out: &mut Vec<u8>, src: &Vec<u8>)
    ensures
        final(out)@ == old(out)@ + src@,
{
    let mut i: usize = 0;
    while i < src.len()
        invariant
            i <= src@.len(),
            out@ == old(out)@ + src@.take(i as int),
        decreases src@.len() - i,
    {
        let b = src[i];
        out.push(b);
        proof {
            assert(out@ =~= old(out)@ + src@.take(i as int + 1));
        }
        i = i + 1;
    }
    proof {
        assert(src@.take(src@.len() as int) =~= src@);
        assert(out@ =~= old(out)@ + src@);
    }
}

/// Does the literal `" <mid>="` occur at `pos`?
fn match_field3(s: &Vec<u8>, pos: usize, mid: u8) -> (r: bool)
    requires
        pos <= s@.len(),
    ensures
        r == match_at(s@, pos as int, seq![32u8, mid, 61u8]),
        r ==> pos as int + 3 <= s@.len(),
{
    let ghost lit: Seq<u8> = seq![32u8, mid, 61u8];
    if s.len() - pos >= 3 && s[pos] == 32 && s[pos + 1] == mid && s[pos + 2] == 61 {
        proof {
            assert forall|q: int| 0 <= q < lit.len() implies s@[pos as int + q]
                == #[trigger] lit[q] by {
                if q == 0 {
                } else if q == 1 {
                } else {
                    assert(q == 2);
                }
            }
        }
        true
    } else {
        proof {
            if match_at(s@, pos as int, lit) {
                assert(s@[pos as int + 0] == lit[0]);
                assert(s@[pos as int + 1] == lit[1]);
                assert(s@[pos as int + 2] == lit[2]);
            }
        }
        false
    }
}

/// Does the literal `" neighbors="` occur at `pos`?
fn match_field_nb(s: &Vec<u8>, pos: usize) -> (r: bool)
    requires
        pos <= s@.len(),
    ensures
        r == match_at(s@, pos as int, field_nb()),
        r ==> pos as int + 11 <= s@.len(),
{
    if s.len() - pos >= 11 && s[pos] == 32 && s[pos + 1] == 110 && s[pos + 2] == 101 && s[pos + 3]
        == 105 && s[pos + 4] == 103 && s[pos + 5] == 104 && s[pos + 6] == 98 && s[pos + 7] == 111
        && s[pos + 8] == 114 && s[pos + 9] == 115 && s[pos + 10] == 61 {
        proof {
            assert forall|q: int| 0 <= q < field_nb().len() implies s@[pos as int + q]
                == #[trigger] field_nb()[q] by {
                if q == 0 {
                } else if q == 1 {
                } else if q == 2 {
                } else if q == 3 {
                } else if q == 4 {
                } else if q == 5 {
                } else if q == 6 {
                } else if q == 7 {
                } else if q == 8 {
                } else if q == 9 {
                } else {
                    assert(q == 10);
                }
            }
        }
        true
    } else {
        proof {
            if match_at(s@, pos as int, field_nb()) {
                assert(s@[pos as int + 0] == field_nb()[0]);
                assert(s@[pos as int + 1] == field_nb()[1]);
                assert(s@[pos as int + 2] == field_nb()[2]);
                assert(s@[pos as int + 3] == field_nb()[3]);
                assert(s@[pos as int + 4] == field_nb()[4]);
                assert(s@[pos as int + 5] == field_nb()[5]);
                assert(s@[pos as int + 6] == field_nb()[6]);
                assert(s@[pos as int + 7] == field_nb()[7]);
                assert(s@[pos as int + 8] == field_nb()[8]);
                assert(s@[pos as int + 9] == field_nb()[9]);
                assert(s@[pos as int + 10] == field_nb()[10]);
            }
        }
        false
    }
}

/// Parse a neighbour list at `pos`, mirroring `sp_parse_neighbors`.
fn parse_neighbors(s: &Vec<u8>, pos: usize) -> (r: Option<(Vec<u128>, usize)>)
    requires
        pos <= s@.len(),
    ensures
        match r {
            Some((nb, e)) => sp_parse_neighbors(s@, pos as int) == Some((nb@, e as int)) && pos < e
                <= s@.len(),
            None => sp_parse_neighbors(s@, pos as int) is None,
        },
    decreases s@.len() - pos,
{
    if pos >= s.len() {
        return None;
    }
    if s[pos] == 10 {
        let v: Vec<u128> = Vec::new();
        proof {
            assert(v@ =~= Seq::<u128>::empty());
        }
        return Some((v, pos + 1));
    }
    match parse_key(s, pos) {
        Some((k, j)) => {
            if j < s.len() && s[j] == 44 {
                match parse_neighbors(s, j + 1) {
                    Some((rest, e)) => {
                        let mut rest = rest;
                        rest.insert(0, k);
                        proof {
                            assert(rest@ =~= seq![k] + rest@.drop_first());
                        }
                        Some((rest, e))
                    },
                    None => None,
                }
            } else if j < s.len() && s[j] == 10 {
                let mut v: Vec<u128> = Vec::new();
                v.push(k);
                proof {
                    assert(v@ =~= seq![k]);
                }
                Some((v, j + 1))
            } else {
                None
            }
        },
        None => None,
    }
}

/// Parse one entry at `pos`, mirroring `sp_parse_entry`.
fn parse_entry_at(s: &Vec<u8>, pos: usize) -> (r: Option<(u128, Tile, usize)>)
    requires
        pos <= s@.len(),
    ensures
        match r {
            Some((k, t, j)) => sp_parse_entry(s@, pos as int) == Some((k, t@, j as int)) && pos < j
                <= s@.len(),
            None => sp_parse_entry(s@, pos as int) is None,
        },
{
    let slen = s.len();
    proof {
        assert(slen == s@.len());
        assert(s@.len() <= usize::MAX);
    }
    let (k, j0) = match parse_key(s, pos) {
        Some(p) => p,
        None => {
            return None;
        },
    };
    if !match_field3(s, j0, 121) {
        return None;
    }
    proof {
        assert(j0 as int + 3 <= s@.len());
    }
    let (y, j1) = match parse_i32(s, j0 + 3) {
        Some(p) => p,
        None => {
            return None;
        },
    };
    if !match_field3(s, j1, 120) {
        return None;
    }
    proof {
        assert(j1 as int + 3 <= s@.len());
    }
    let (x, j2) = match parse_i32(s, j1 + 3) {
        Some(p) => p,
        None => {
            return None;
        },
    };
    if !match_field3(s, j2, 99) {
        return None;
    }
    proof {
        assert(j2 as int + 3 <= s@.len());
    }
    let (cv, j3) = match parse_u64(s, j2 + 3) {
        Some(p) => p,
        None => {
            return None;
        },
    };
    if cv >= 0x1_0000_0000u64 {
        return None;
    }
    let c = match char::from_u32(cv as u32) {
        Some(c) => c,
        None => {
            return None;
        },
    };
    if !match_field_nb(s, j3) {
        return None;
    }
    proof {
        assert(j3 as int + 11 <= s@.len());
    }
    let (nb, e) = match parse_neighbors(s, j3 + 11) {
        Some(p) => p,
        None => {
            return None;
        },
    };
    Some((k, Tile::new(y, x, c, nb), e))
}

/// Append one encoded entry to the payload.
#[verifier::rlimit(80)]
fn encode_entry_into(out: &mut Vec<u8>, k: u128, t: &Tile)
    requires
        valid_key(k),
        forall|q: int| 0 <= q < t@.neighbors.len() ==> valid_key(#[trigger] t@.neighbors[q]),
    ensures
        final(out)@ == old(out)@ + encode_entry(k, t@),
{
    let ghost base = out@;
    let kb = key_text_of(k);
    append_bytes(out, &kb);
    out.push(32);
    out.push(121);
    out.push(61);
    proof {
        assert(out@ =~= base + key_text(k) + field_y());
    }
    let yb = fmt_i32(t.y);
    append_bytes(out, &yb);
    out.push(32);
    out.push(120);
    out.push(61);
    proof {
        assert(out@ =~= base + key_text(k) + field_y() + dec_int(t@.y) + field_x());
    }
    let xb = fmt_i32(t.x);
    append_bytes(out, &xb);
    out.push(32);
    out.push(99);
    out.push(61);
    proof {
        assert(out@ =~= base + key_text(k) + field_y() + dec_int(t@.y) + field_x() + dec_int(t@.x)
            + field_c());
    }
    let cb = fmt_u64((t.c as u32) as u64);
    append_bytes(out, &cb);
    out.push(32);
    out.push(110);
    out.push(101);
    out.push(105);
    out.push(103);
    out.push(104);
    out.push(98);
    out.push(111);
    out.push(114);
    out.push(115);
    out.push(61);
    let ghost mid = base + key_text(k) + field_y() + dec_int(t@.y) + field_x() + dec_int(t@.x)
        + field_c() + dec_digits((t@.c as u32) as nat) + field_nb();
    proof {
        assert(((t.c as u32) as u64) as nat == (t@.c as u32) as nat);
        assert(out@ =~= mid);
    }
    let mut q: usize = 0;
    while q < t.neighbors.len()
        invariant
            q <= t@.neighbors.len(),
            forall|p: int| 0 <= p < t@.neighbors.len() ==> valid_key(#[trigger] t@.neighbors[p]),
            out@ == mid + encode_neighbors(t@.neighbors.take(q as int)),
        decreases t@.neighbors.len() - q,
    {
        if q > 0 {
            out.push(44);
        }
        let nk = t.neighbors[q];
        let nb = key_text_of(nk);
        append_bytes(out, &nb);
        proof {
            lemma_encode_neighbors_push(t@.neighbors.take(q as int), nk);
            assert(t@.neighbors.take(q as int + 1) =~= t@.neighbors.take(q as int).push(nk));
            if q == 0 {
                assert(out@ =~= mid + encode_neighbors(t@.neighbors.take(q as int + 1)));
            } else {
                assert(out@ =~= mid + encode_neighbors(t@.neighbors.take(q as int + 1)));
            }
        }
        q = q + 1;
    }
    out.push(10);
    proof {
        assert(t@.neighbors.take(t@.neighbors.len() as int) =~= t@.neighbors);
        assert(out@ =~= base + encode_entry(k, t@));
    }
}

/// What the payload written by a gzip compression of some bytes is.
/// Nothing but the trusted compression wrapper gives it meaning.
pub uninterp spec fn gzip_of(s: Seq<u8>) -> Seq<u8>;

/// What a gzip decompression of some bytes yields, if they form a valid
/// stream.  Nothing but the trusted wrappers gives it meaning.
pub uninterp spec fn gunzip_of(s: Seq<u8>) -> Option<Seq<u8>>;

/// How a load must answer for a given textual payload: the parsed store
/// with the standard symbols, or a format error.
pub open spec fn loads_to(r: Result<TileMap, MapError>, text: Seq<u8>) -> bool {
    match sp_parse_store(text) {
        Some(es) => r matches Ok(m) && m.wf() && m.objects() == map_of_entries(es) && m.map_wall
            == '#' && m.map_floor == '.' && m.map_player == 'p',
        None => r matches Err(e) && e == MapError::Format,
    }
}

/// Parse a textual payload into a fresh map.
fn parse_text(s: &Vec<u8>) -> (r: Result<TileMap, MapError>)
    ensures
        loads_to(r, s@),
{
    let mut store = TileStore::new();
    let ghost mut esp: Seq<(u128, TileView)> = Seq::empty();
    proof {
        assert(map_of_entries(esp) =~= Map::<u128, TileView>::empty());
    }
    let mut cur: usize = 0;
    while cur < s.len()
        invariant
            cur <= s@.len(),
            store.wf(),
            store@ == map_of_entries(esp),
            sp_parse_entries(s@, cur as int) matches Some(rest) ==> sp_parse_store(s@) == Some(
                esp + rest,
            ),
            sp_parse_entries(s@, cur as int) is None ==> sp_parse_store(s@) is None,
        decreases s@.len() - cur,
    {
        match parse_entry_at(s, cur) {
            Some((k, t, j)) => {
                proof {
                    lemma_parse_entry_valid(s@, cur as int);
                }
                let ghost prev_esp = esp;
                proof {
                    esp = esp.push((k, t@));
                    assert(esp.drop_last() =~= prev_esp);
                    assert(esp.last() == (k, t@));
                }
                store.insert(k, t);
                proof {
                    assert(store@ == map_of_entries(esp));
                    if sp_parse_entries(s@, j as int) is Some {
                        let rest2 = sp_parse_entries(s@, j as int)->Some_0;
                        assert(sp_parse_entries(s@, cur as int) == Some(seq![(k, t@)] + rest2));
                        assert(prev_esp + (seq![(k, t@)] + rest2) =~= esp + rest2);
                    }
                }
                cur = j;
            },
            None => {
                proof {
                    assert(sp_parse_entries(s@, cur as int) is None);
                }
                return Err(MapError::Format);
            },
        }
    }
    proof {
        assert(sp_parse_entries(s@, cur as int) == Some(Seq::<(u128, TileView)>::empty()));
        assert(esp + Seq::<(u128, TileView)>::empty() =~= esp);
        assert(sp_parse_store(s@) == Some(esp));
    }
    Ok(TileMap { map_wall: '#', map_floor: '.', map_player: 'p', map_game_objects: store })
}

impl TileMap {
    /// Relies on flate2's write::GzEncoder at the default level: the
    /// stream it writes is a function of the input bytes alone, and
    /// gzip decoding recovers them exactly.
    #[verifier::external_body]
    pub fn compress(data: &Vec<u8>) -> (r: Vec<u8>)
        ensures
            r@ == gzip_of(data@),
            gunzip_of(r@) == Some(data@),
    {
        let mut enc = flate2::write::GzEncoder::new(Vec::new(), flate2::Compression::default());
        std::io::Write::write_all(&mut enc, data.as_slice()).expect("gzip write");
        enc.finish().expect("gzip finish")
    }

    /// Relies on flate2's read::GzDecoder: decoding is a function of the
    /// input bytes alone, and an invalid stream reports an error.
    #[verifier::external_body]
    pub fn decompress(data: &Vec<u8>) -> (r: Result<Vec<u8>, MapError>)
        ensures
            r is Ok <==> gunzip_of(data@) is Some,
            r matches Ok(t) ==> Some(t@) == gunzip_of(data@),
            r matches Err(e) ==> e == MapError::Format,
    {
        let mut out: Vec<u8> = Vec::new();
        let mut dec = flate2::read::GzDecoder::new(data.as_slice());
        match std::io::Read::read_to_end(&mut dec, &mut out) {
            Ok(_) => Ok(out),
            Err(_) => Err(MapError::Format),
        }
    }

    /// Is this payload a gzip stream?  Content sniffing: an attempted
    /// decompression decides, so a caller need not trust a flag.
    pub fn file_compressed(data: &Vec<u8>) -> (r: bool)
        ensures
            r == (gunzip_of(data@) is Some),
    {
        match TileMap::decompress(data) {
            Ok(_) => true,
            Err(_) => false,
        }
    }

    /// Serialize the store, entry by entry in insertion order, and
    /// optionally wrap the text in a gzip stream.
    pub fn save_map(map: &TileMap, compression: bool) -> (r: Vec<u8>)
        requires
            map.wf(),
        ensures
            !compression ==> r@ == encode_entries(store_entries(map)),
            compression ==> r@ == gzip_of(encode_entries(store_entries(map))),
            compression ==> gunzip_of(r@) == Some(encode_entries(store_entries(map))),
    {
        let mut out: Vec<u8> = Vec::new();
        let n = map.map_game_objects.order_len();
        proof {
            map.map_game_objects.lemma_wf_entries();
            assert(encode_entries(store_entries(map).take(0)) =~= Seq::<u8>::empty()) by {
                assert(store_entries(map).take(0) =~= Seq::<(u128, TileView)>::empty());
            }
        }
        let mut i: usize = 0;
        while i < n
            invariant
                i <= n,
                n == map.map_game_objects.entry_keys().len(),
                map.wf(),
                out@ == encode_entries(store_entries(map).take(i as int)),
            decreases n - i,
        {
            let k = map.map_game_objects.key_at(i);
            proof {
                map.map_game_objects.lemma_wf_entries();
                assert(map.objects().dom().contains(map.map_game_objects.entry_keys()[i as int]));
            }
            let t = match map.map_game_objects.get(k) {
                Some(t) => t,
                None => {
                    proof {
                        assert(false);
                    }
                    return out;
                },
            };
            encode_entry_into(&mut out, k, t);
            proof {
                lemma_encode_entries_push(store_entries(map).take(i as int), k, t@);
                assert(store_entries(map)[i as int] == (k, t@));
                assert(store_entries(map).take(i as int + 1) =~= store_entries(map).take(
                    i as int,
                ).push((k, t@)));
            }
            i = i + 1;
        }
        proof {
            assert(store_entries(map).take(n as int) =~= store_entries(map));
        }
        if compression {
            TileMap::compress(&out)
        } else {
            out
        }
    }

    /// Read a map back from a payload: decompress first when asked to,
    /// then parse the text.  A payload that does not decompress or does
    /// not parse reports a format error.
    pub fn load_map(data: &Vec<u8>, compression: bool) -> (r: Result<TileMap, MapError>)
        ensures
            !compression ==> loads_to(r, data@),
            compression && gunzip_of(data@) is None ==> (r matches Err(e) && e == MapError::Format),
            compression && gunzip_of(data@) is Some ==> loads_to(r, gunzip_of(data@)->Some_0),
    {
        if compression {
            match TileMap::decompress(data) {
                Ok(text) => parse_text(&text),
                Err(e) => Err(e),
            }
        } else {
            parse_text(data)
        }
    }
}

} // verus!
