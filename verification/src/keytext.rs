//! The textual form of packed keys: `"{y}x{x}"` for grid cells, `"v{n}"`
//! for region seeds, and the fixed words `"mapsize"` and `"player"` for
//! the metadata entries — together with the parser that reads them back.

use vstd::prelude::*;
use vstd::arithmetic::div_mod::lemma_fundamental_div_mod;
use crate::tile::{
    grid_key, region_key, mapsize_key, player_key, key_grid_y, key_grid_x, key_region_n,
    is_grid_key, is_region_key, valid_key, wrap32, unwrap32, unbits32, grid_key_of,
    lemma_grid_key_inverse,
};
use crate::num::{
    dec_digits, dec_int, is_digit, sp_parse_u64, sp_parse_i32, fmt_u64, fmt_i32, parse_u64,
    parse_i32, lemma_parse_u64_of_dec, lemma_parse_i32_of_dec, lemma_dec_digits_shape,
    lemma_digit_run_range,
};

verus! {

/// The bytes of the word `"mapsize"`.
pub open spec fn mapsize_text() -> Seq<u8> {
    seq![109u8, 97u8, 112u8, 115u8, 105u8, 122u8, 101u8]
}

/// The bytes of the word `"player"`.
pub open spec fn player_text() -> Seq<u8> {
    seq![112u8, 108u8, 97u8, 121u8, 101u8, 114u8]
}

/// The literal `lit` occurs in `s` at position `i`.
pub open spec fn match_at(s: Seq<u8>, i: int, lit: Seq<u8>) -> bool {
    &&& 0 <= i
    &&& i + lit.len() <= s.len()
    &&& forall|q: int| 0 <= q < lit.len() ==> s[i + q] == #[trigger] lit[q]
}

/// The textual form of a valid key.
pub open spec fn key_text(k: u128) -> Seq<u8> {
    if is_grid_key(k) {
        dec_int(key_grid_y(k)) + seq![120u8] + dec_int(key_grid_x(k))
    } else if is_region_key(k) {
        seq![118u8] + dec_digits(key_region_n(k) as nat)
    } else if k == mapsize_key() {
        mapsize_text()
    } else if k == player_key() {
        player_text()
    } else {
        Seq::empty()
    }
}

/// Parse a key at position `i`: the word `"mapsize"` or `"player"`, a
/// `v`-prefixed region index below `2^32`, or a signed coordinate pair
/// separated by a literal `x`.
pub open spec fn sp_parse_key(s: Seq<u8>, i: int) -> Option<(u128, int)> {
    if i < 0 || i >= s.len() {
        None
    } else if s[i] == 109 {
        if match_at(s, i, mapsize_text()) {
            Some((mapsize_key(), i + 7))
        } else {
            None
        }
    } else if s[i] == 112 {
        if match_at(s, i, player_text()) {
            Some((player_key(), i + 6))
        } else {
            None
        }
    } else if s[i] == 118 {
        match sp_parse_u64(s, i + 1) {
            Some((v, j)) => if v < 0x1_0000_0000 {
                Some((region_key(v), j))
            } else {
                None
            },
            None => None,
        }
    } else {
        match sp_parse_i32(s, i) {
            Some((y, j)) => if j < s.len() && s[j] == 120 {
                match sp_parse_i32(s, j + 1) {
                    Some((x, j2)) => Some((grid_key(y, x), j2)),
                    None => None,
                }
            } else {
                None
            },
            None => None,
        }
    }
}

/// Whatever the parser returns is a valid key placed after the start.
pub proof fn lemma_parse_key_valid(s: Seq<u8>, i: int)
    ensures
        sp_parse_key(s, i) matches Some((k, j)) ==> valid_key(k) && i < j <= s.len(),
{
    if sp_parse_key(s, i) is Some {
        let (k, j) = sp_parse_key(s, i)->Some_0;
        if s[i] == 109 || s[i] == 112 {
        } else if s[i] == 118 {
            lemma_digit_run_range(s, i + 1);
        } else {
            let (y, j1) = sp_parse_i32(s, i)->Some_0;
            assert(-0x8000_0000 <= y < 0x8000_0000) by {
                if s[i] == 45 {
                    lemma_digit_run_range(s, i + 1);
                } else {
                    lemma_digit_run_range(s, i);
                }
            }
            let (x, j2) = sp_parse_i32(s, j1 + 1)->Some_0;
            assert(-0x8000_0000 <= x < 0x8000_0000 && j1 + 1 < j2 <= s.len()) by {
                if s[j1 + 1] == 45 {
                    lemma_digit_run_range(s, j1 + 2);
                } else {
                    lemma_digit_run_range(s, j1 + 1);
                }
            }
            lemma_grid_key_inverse(y, x);
        }
    }
}

/// A grid key is rebuilt exactly from its decoded coordinates.
pub proof fn lemma_grid_key_reconstruct(k: u128)
    requires
        is_grid_key(k),
    ensures
        -0x8000_0000 <= key_grid_y(k) < 0x8000_0000,
        -0x8000_0000 <= key_grid_x(k) < 0x8000_0000,
        grid_key(key_grid_y(k), key_grid_x(k)) == k,
{
    let ki = k as int;
    let q = ki / 0x1_0000_0000;
    let r = ki % 0x1_0000_0000;
    lemma_fundamental_div_mod(ki, 0x1_0000_0000);
    assert(0 <= r < 0x1_0000_0000);
    assert(0 <= q < 0x1_0000_0000) by (nonlinear_arith)
        requires
            ki == 0x1_0000_0000 * q + r,
            0 <= ki < 0x1_0000_0000_0000_0000,
            0 <= r < 0x1_0000_0000,
    ;
    assert(wrap32(unwrap32(q)) == q);
    assert(wrap32(unwrap32(r)) == r);
    assert(grid_key(key_grid_y(k), key_grid_x(k)) as int == q * 0x1_0000_0000 + r) by {
        assert(q * 0x1_0000_0000 + r < 0x1_0000_0000_0000_0000) by (nonlinear_arith)
            requires
                0 <= q < 0x1_0000_0000,
                0 <= r < 0x1_0000_0000,
        ;
    }
    assert(q * 0x1_0000_0000 + r == 0x1_0000_0000 * q + r);
}

/// The textual form of a valid key, followed by anything but a digit,
/// parses back to exactly that key.
pub proof fn lemma_parse_key_of_text(s: Seq<u8>, i: int, k: u128)
    requires
        valid_key(k),
        match_at(s, i, key_text(k)),
        i + key_text(k).len() == s.len() || !is_digit(s[i + key_text(k).len()]),
    ensures
        key_text(k).len() >= 1,
        sp_parse_key(s, i) == Some((k, i + key_text(k).len())),
{
    let t = key_text(k);
    if is_grid_key(k) {
        lemma_grid_key_reconstruct(k);
        let y = key_grid_y(k);
        let x = key_grid_x(k);
        let dy = dec_int(y);
        let dx = dec_int(x);
        lemma_dec_digits_shape((if y < 0 {
            -y
        } else {
            y
        }) as nat);
        lemma_dec_digits_shape((if x < 0 {
            -x
        } else {
            x
        }) as nat);
        assert(t.len() == dy.len() + 1 + dx.len());
        assert forall|q: int| 0 <= q < dy.len() implies s[i + q] == #[trigger] dy[q] by {
            assert(t[q] == (dy + seq![120u8])[q]);
        }
        assert(s[i + dy.len()] == t[dy.len() as int]);
        assert(t[dy.len() as int] == 120);
        lemma_parse_i32_of_dec(s, i, y);
        assert(s[i + 0] == t[0]);
        if y < 0 {
            assert(t[0] == dy[0]);
            assert(dy[0] == 45);
        } else {
            assert(t[0] == dy[0]);
            assert(is_digit(dy[0]));
        }
        assert(s[i] != 109 && s[i] != 112 && s[i] != 118);
        let j = i + dy.len();
        assert forall|q: int| 0 <= q < dx.len() implies s[j + 1 + q] == #[trigger] dx[q] by {
            assert(t[dy.len() + 1 + q] == dx[q]);
        }
        lemma_parse_i32_of_dec(s, j + 1, x);
        assert(sp_parse_key(s, i) == Some((grid_key(y, x), i + t.len())));
    } else if is_region_key(k) {
        let n = key_region_n(k) as nat;
        lemma_dec_digits_shape(n);
        assert(s[i + 0] == t[0]);
        assert(t[0] == 118);
        assert forall|q: int| 0 <= q < dec_digits(n).len() implies s[i + 1 + q]
            == #[trigger] dec_digits(n)[q] by {
            assert(t[1 + q] == dec_digits(n)[q]);
        }
        lemma_parse_u64_of_dec(s, i + 1, n);
        assert(region_key(n as int) == k);
    } else if k == mapsize_key() {
        assert(s[i + 0] == t[0]);
        assert(t[0] == 109);
    } else {
        assert(s[i + 0] == t[0]);
        assert(t[0] == 112);
        assert(s[i] != 109);
    }
}

/// A valid key's text is non-empty and starts with a letter, a digit or
/// a minus sign — never a separator byte.
pub proof fn lemma_key_text_first(k: u128)
    requires
        valid_key(k),
    ensures
        key_text(k).len() >= 1,
        key_text(k)[0] != 10,
        key_text(k)[0] != 44,
        key_text(k)[0] != 32,
{
    if is_grid_key(k) {
        lemma_grid_key_reconstruct(k);
        let y = key_grid_y(k);
        let dy = dec_int(y);
        if y < 0 {
            assert(key_text(k)[0] == dy[0]);
            assert(dy[0] == 45);
        } else {
            lemma_dec_digits_shape(y as nat);
            assert(key_text(k)[0] == dy[0]);
            assert(is_digit(dy[0]));
        }
    } else if is_region_key(k) {
        assert(key_text(k)[0] == 118);
    } else if k == mapsize_key() {
        assert(key_text(k)[0] == 109);
    } else {
        assert(key_text(k)[0] == 112);
    }
}

/// The textual form of a valid key, as executable bytes.
pub fn key_text_of(k: u128) -> (r: Vec<u8>)
    requires
        valid_key(k),
    ensures
        r@ == key_text(k),
{
    if k < 0x1_0000_0000_0000_0000u128 {
        let yb: u64 = (k / 0x1_0000_0000u128) as u64;
        let xb: u64 = (k % 0x1_0000_0000u128) as u64;
        proof {
            lemma_fundamental_div_mod(k as int, 0x1_0000_0000);
            assert((k as int) / 0x1_0000_0000 < 0x1_0000_0000) by (nonlinear_arith)
                requires
                    k as int == 0x1_0000_0000 * ((k as int) / 0x1_0000_0000) + (k as int)
                        % 0x1_0000_0000,
                    0 <= (k as int) % 0x1_0000_0000 < 0x1_0000_0000,
                    0 <= (k as int) && (k as int) < 0x1_0000_0000_0000_0000,
            ;
        }
        let y = unbits32(yb);
        let x = unbits32(xb);
        let mut r = fmt_i32(y);
        r.push(120);
        let mut dx = fmt_i32(x);
        let mut q: usize = 0;
        while q < dx.len()
            invariant
                q <= dx@.len(),
                r@ == dec_int(y as int) + seq![120u8] + dx@.take(q as int),
                dx@ == dec_int(x as int),
            decreases dx@.len() - q,
        {
            let b = dx[q];
            r.push(b);
            proof {
                assert(r@ =~= dec_int(y as int) + seq![120u8] + dx@.take(q as int + 1));
            }
            q = q + 1;
        }
        proof {
            assert(dx@.take(dx@.len() as int) =~= dx@);
            assert(r@ =~= key_text(k));
        }
        r
    } else if k < 0x1_0000_0000_0000_0000u128 + 0x1_0000_0000u128 {
        let n: u64 = (k - 0x1_0000_0000_0000_0000u128) as u64;
        let mut r: Vec<u8> = Vec::new();
        r.push(118);
        let mut dn = fmt_u64(n);
        let mut q: usize = 0;
        while q < dn.len()
            invariant
                q <= dn@.len(),
                r@ == seq![118u8] + dn@.take(q as int),
                dn@ == dec_digits(n as nat),
            decreases dn@.len() - q,
        {
            let b = dn[q];
            r.push(b);
            proof {
                assert(r@ =~= seq![118u8] + dn@.take(q as int + 1));
            }
            q = q + 1;
        }
        proof {
            assert(dn@.take(dn@.len() as int) =~= dn@);
            assert(r@ =~= key_text(k));
        }
        r
    } else if k == 0x2_0000_0000_0000_0000u128 {
        let mut r: Vec<u8> = Vec::new();
        r.push(109);
        r.push(97);
        r.push(112);
        r.push(115);
        r.push(105);
        r.push(122);
        r.push(101);
        proof {
            assert(r@ =~= mapsize_text());
        }
        r
    } else {
        let mut r: Vec<u8> = Vec::new();
        r.push(112);
        r.push(108);
        r.push(97);
        r.push(121);
        r.push(101);
        r.push(114);
        proof {
            assert(r@ =~= player_text());
        }
        r
    }
}

/// Parse a key at `pos`, mirroring `sp_parse_key`.
pub fn parse_key(s: &Vec<u8>, pos: usize) -> (r: Option<(u128, usize)>)
    requires
        pos <= s@.len(),
    ensures
        match r {
            Some((k, j)) => sp_parse_key(s@, pos as int) == Some((k, j as int)) && pos < j
                <= s@.len(),
            None => sp_parse_key(s@, pos as int) is None,
        },
{
    if pos >= s.len() {
        return None;
    }
    let b = s[pos];
    if b == 109 {
        if s.len() - pos >= 7 && s[pos + 1] == 97 && s[pos + 2] == 112 && s[pos + 3] == 115 && s[pos
            + 4] == 105 && s[pos + 5] == 122 && s[pos + 6] == 101 {
            proof {
                assert(match_at(s@, pos as int, mapsize_text()));
            }
            Some((0x2_0000_0000_0000_0000u128, pos + 7))
        } else {
            proof {
                assert(!match_at(s@, pos as int, mapsize_text()));
            }
            None
        }
    } else if b == 112 {
        if s.len() - pos >= 6 && s[pos + 1] == 108 && s[pos + 2] == 97 && s[pos + 3] == 121 && s[pos
            + 4] == 101 && s[pos + 5] == 114 {
            proof {
                assert(match_at(s@, pos as int, player_text()));
            }
            Some((0x3_0000_0000_0000_0000u128, pos + 6))
        } else {
            proof {
                assert(!match_at(s@, pos as int, player_text()));
            }
            None
        }
    } else if b == 118 {
        match parse_u64(s, pos + 1) {
            Some((v, j)) => {
                if v < 0x1_0000_0000u64 {
                    Some((0x1_0000_0000_0000_0000u128 + (v as u128), j))
                } else {
                    None
                }
            },
            None => None,
        }
    } else {
        match parse_i32(s, pos) {
            Some((y, j)) => {
                if j < s.len() && s[j] == 120 {
                    match parse_i32(s, j + 1) {
                        Some((x, j2)) => Some((grid_key_of(y, x), j2)),
                        None => None,
                    }
                } else {
                    None
                }
            },
            None => None,
        }
    }
}

} // verus!
