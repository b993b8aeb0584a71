use vstd::prelude::*;
use vstd::string::StringSliceAdditionalSpecFns;
use vstd::utf8::{decode_utf8, encode_utf8, valid_utf8};

use crate::numeric::{dec_rep, dec_val, digits_only, encode_u64, is_digit_byte, parse_u64};
use crate::numeric::lemma_dec_rep_val;
use crate::types::{DrinkList, DrinkListV, Item, ItemV, Machine, MachineV, Slot, SlotV};

verus! {

// The wire form of the client's records. An item is written as a JSON object
// with its fields in a fixed order, `{"id":N,"name":"...","price":N}`; a drop
// order is written as `{"machine":"...","slot":N}`. Inside a quoted string the
// quote and the backslash are escaped with a backslash; every other byte
// stands for itself.
/// Escapes a byte string for embedding between quotes: a backslash is put
/// before every quote (34) and backslash (92) byte.
pub open spec fn esc(b: Seq<u8>) -> Seq<u8>
    decreases b.len(),
{
    if b.len() == 0 {
        Seq::empty()
    } else if b[0] == 34 || b[0] == 92 {
        seq![92u8, b[0]] + esc(b.drop_first())
    } else {
        seq![b[0]] + esc(b.drop_first())
    }
}

/// Undoes `esc`: a byte after a backslash stands for itself.
pub open spec fn unesc(b: Seq<u8>) -> Seq<u8>
    decreases b.len(),
{
    if b.len() == 0 {
        Seq::empty()
    } else if b[0] == 92 && b.len() >= 2 {
        seq![b[1]] + unesc(b.subrange(2, b.len() as int))
    } else {
        seq![b[0]] + unesc(b.drop_first())
    }
}

/// Escaping distributes over concatenation.
proof fn lemma_esc_concat(x: Seq<u8>, y: Seq<u8>)
    ensures
        esc(x + y) == esc(x) + esc(y),
    decreases x.len(),
{
    if x.len() == 0 {
        assert(x + y =~= y);
        assert(esc(x) + esc(y) =~= esc(y));
    } else {
        lemma_esc_concat(x.drop_first(), y);
        assert((x + y).drop_first() =~= x.drop_first() + y);
        assert(esc(x + y) =~= esc(x) + esc(y));
    }
}

/// The bytes `{"id":` that open an item object.
pub open spec fn lit_item_open() -> Seq<u8> {
    seq![123u8, 34u8, 105u8, 100u8, 34u8, 58u8]
}

/// The bytes `,"name":"` between the id and the name.
pub open spec fn lit_item_name() -> Seq<u8> {
    seq![44u8, 34u8, 110u8, 97u8, 109u8, 101u8, 34u8, 58u8, 34u8]
}

/// The bytes `","price":` between the name and the price.
pub open spec fn lit_item_price() -> Seq<u8> {
    seq![34u8, 44u8, 34u8, 112u8, 114u8, 105u8, 99u8, 101u8, 34u8, 58u8]
}

/// The bytes `{"machine":"` that open a drop order.
pub open spec fn lit_drop_open() -> Seq<u8> {
    seq![123u8, 34u8, 109u8, 97u8, 99u8, 104u8, 105u8, 110u8, 101u8, 34u8, 58u8, 34u8]
}

/// The bytes `","slot":` between the machine name and the slot number.
pub open spec fn lit_drop_slot() -> Seq<u8> {
    seq![34u8, 44u8, 34u8, 115u8, 108u8, 111u8, 116u8, 34u8, 58u8]
}

/// The wire bytes of an item.
#[verifier::opaque]
pub open spec fn spec_encode_item(v: ItemV) -> Seq<u8> {
    lit_item_open() + dec_rep(v.id as nat) + lit_item_name() + esc(encode_utf8(v.name))
        + lit_item_price() + dec_rep(v.price as nat) + seq![125u8]
}

/// The wire bytes of a drop order for a slot of a machine.
pub open spec fn spec_encode_drop(machine: Seq<char>, slot: u8) -> Seq<u8> {
    lit_drop_open() + esc(encode_utf8(machine)) + lit_drop_slot() + dec_rep(slot as nat)
        + seq![125u8]
}

/// The literal `lit` occurs in `s` at position `i`.
pub open spec fn match_at(s: Seq<u8>, i: int, lit: Seq<u8>) -> bool {
    0 <= i && i + lit.len() <= s.len() && s.subrange(i, i + lit.len()) == lit
}

/// The end of the run of digit bytes that starts at `i`.
pub open spec fn digit_run_end(s: Seq<u8>, i: int) -> int
    decreases s.len() - i,
    when 0 <= i <= s.len()
{
    if i < s.len() && is_digit_byte(s[i]) {
        digit_run_end(s, i + 1)
    } else {
        i
    }
}

/// The position of the quote that closes the string region starting at `i`,
/// skipping escaped bytes; `None` when no unescaped quote follows.
pub open spec fn string_end(s: Seq<u8>, i: int) -> Option<int>
    decreases s.len() - i,
    when 0 <= i <= s.len()
{
    if i >= s.len() {
        None
    } else if s[i] == 34 {
        Some(i)
    } else if s[i] == 92 {
        if i + 2 <= s.len() {
            string_end(s, i + 2)
        } else {
            None
        }
    } else {
        string_end(s, i + 1)
    }
}

/// A digit run ends within the string, covers digits only, and stops at the
/// first byte that is not a digit.
proof fn lemma_digit_run(s: Seq<u8>, i: int)
    requires
        0 <= i <= s.len(),
    ensures
        i <= digit_run_end(s, i) <= s.len(),
        digits_only(s.subrange(i, digit_run_end(s, i))),
        digit_run_end(s, i) == s.len() || !is_digit_byte(s[digit_run_end(s, i)]),
    decreases s.len() - i,
{
    if i < s.len() && is_digit_byte(s[i]) {
        lemma_digit_run(s, i + 1);
        let e = digit_run_end(s, i);
        assert(digits_only(s.subrange(i + 1, e)));
        assert forall|m: int| 0 <= m < e - i implies is_digit_byte(#[trigger] s.subrange(i, e)[m]) by {
            if m > 0 {
                assert(s.subrange(i, e)[m] == s.subrange(i + 1, e)[m - 1]);
            }
        }
        assert(digits_only(s.subrange(i, e)));
    } else {
        assert(s.subrange(i, i) =~= Seq::<u8>::empty());
    }
}

/// A run known to hold digits and to stop before a non-digit is exactly what
/// `digit_run_end` finds.
proof fn lemma_digit_run_exact(s: Seq<u8>, i: int, j: int)
    requires
        0 <= i <= j <= s.len(),
        forall|k: int| i <= k < j ==> is_digit_byte(#[trigger] s[k]),
        j == s.len() || !is_digit_byte(s[j]),
    ensures
        digit_run_end(s, i) == j,
    decreases j - i,
{
    if i < j {
        lemma_digit_run_exact(s, i + 1, j);
    }
}

/// Scanning from the start of an escaped region finds the quote right after
/// it, and unescaping the region restores the original bytes.
proof fn lemma_string_end_esc(s: Seq<u8>, i: int, b: Seq<u8>)
    requires
        0 <= i,
        i + esc(b).len() < s.len(),
        s.subrange(i, i + esc(b).len()) == esc(b),
        s[i + esc(b).len()] == 34,
    ensures
        string_end(s, i) == Some(i + esc(b).len()),
        unesc(s.subrange(i, i + esc(b).len())) == b,
    decreases b.len(),
{
    if b.len() == 0 {
        assert(unesc(s.subrange(i, i)) =~= b);
    } else {
        let e = esc(b);
        let t = b.drop_first();
        let et = esc(t);
        if b[0] == 34 || b[0] == 92 {
            assert(e == seq![92u8, b[0]] + et);
            assert(s[i] == e[0] == 92);
            assert(s[i + 1] == e[1] == b[0]);
            assert(s.subrange(i + 2, i + 2 + et.len()) =~= et) by {
                assert(forall|k: int|
                    0 <= k < et.len() ==> s.subrange(i, i + e.len())[k + 2] == #[trigger] et[k]);
            }
            lemma_string_end_esc(s, i + 2, t);
            let r = s.subrange(i, i + e.len());
            assert(r[0] == 92 && r.len() >= 2);
            assert(r.subrange(2, r.len() as int) =~= s.subrange(i + 2, i + 2 + et.len()));
            assert(unesc(r) =~= b);
        } else {
            assert(e == seq![b[0]] + et);
            assert(s[i] == e[0] == b[0]);
            assert(s[i] != 34 && s[i] != 92);
            assert(s.subrange(i + 1, i + 1 + et.len()) =~= et) by {
                assert(forall|k: int|
                    0 <= k < et.len() ==> s.subrange(i, i + e.len())[k + 1] == #[trigger] et[k]);
            }
            lemma_string_end_esc(s, i + 1, t);
            let r = s.subrange(i, i + e.len());
            assert(r[0] == b[0]);
            assert(r.drop_first() =~= s.subrange(i + 1, i + 1 + et.len()));
            assert(unesc(r) =~= b);
        }
    }
}

/// Reads one item starting at position `i`: its fields in the wire order,
/// then the record and the position right after it; `None` when the bytes do
/// not follow the wire form.
pub open spec fn spec_decode_item_at(s: Seq<u8>, i: int) -> Option<(ItemV, int)> {
    if !match_at(s, i, lit_item_open()) {
        None
    } else {
        let i0 = i + lit_item_open().len() as int;
        let i1 = digit_run_end(s, i0);
        if i1 == i0 || !(dec_val(s.subrange(i0, i1)) <= u64::MAX) {
            None
        } else if !match_at(s, i1, lit_item_name()) {
            None
        } else {
            let i2 = i1 + lit_item_name().len() as int;
            match string_end(s, i2) {
                None => None,
                Some(i3) => {
                    let name_bytes = unesc(s.subrange(i2, i3));
                    if !valid_utf8(name_bytes) {
                        None
                    } else if !match_at(s, i3, lit_item_price()) {
                        None
                    } else {
                        let i4 = i3 + lit_item_price().len() as int;
                        let i5 = digit_run_end(s, i4);
                        if i5 == i4 || !(dec_val(s.subrange(i4, i5)) <= u64::MAX) {
                            None
                        } else if !(i5 < s.len() && s[i5] == 125) {
                            None
                        } else {
                            Some(
                                (
                                    ItemV {
                                        id: dec_val(s.subrange(i0, i1)) as u64,
                                        name: decode_utf8(name_bytes),
                                        price: dec_val(s.subrange(i4, i5)) as u64,
                                    },
                                    i5 + 1,
                                ),
                            )
                        }
                    }
                },
            }
        }
    }
}

/// The decoder of the wire form of an item: the whole string must be one
/// item, and that record is the result.
pub open spec fn spec_decode_item(s: Seq<u8>) -> Option<ItemV> {
    match spec_decode_item_at(s, 0) {
        Some((v, end)) => if end == s.len() {
            Some(v)
        } else {
            None
        },
        None => None,
    }
}

/// The bytes `{"id":` as a vector.
fn lit_item_open_vec() -> (v: Vec<u8>)
    ensures
        v@ == lit_item_open(),
{
    let v: Vec<u8> = vec![123u8, 34u8, 105u8, 100u8, 34u8, 58u8];
    proof {
        assert(v@ =~= lit_item_open());
    }
    v
}

/// The bytes `,"name":"` as a vector.
fn lit_item_name_vec() -> (v: Vec<u8>)
    ensures
        v@ == lit_item_name(),
{
    let v: Vec<u8> = vec![44u8, 34u8, 110u8, 97u8, 109u8, 101u8, 34u8, 58u8, 34u8];
    proof {
        assert(v@ =~= lit_item_name());
    }
    v
}

/// The bytes `","price":` as a vector.
fn lit_item_price_vec() -> (v: Vec<u8>)
    ensures
        v@ == lit_item_price(),
{
    let v: Vec<u8> = vec![34u8, 44u8, 34u8, 112u8, 114u8, 105u8, 99u8, 101u8, 34u8, 58u8];
    proof {
        assert(v@ =~= lit_item_price());
    }
    v
}

/// The bytes `{"machine":"` as a vector.
fn lit_drop_open_vec() -> (v: Vec<u8>)
    ensures
        v@ == lit_drop_open(),
{
    let v: Vec<u8> = vec![123u8, 34u8, 109u8, 97u8, 99u8, 104u8, 105u8, 110u8, 101u8, 34u8, 58u8, 34u8];
    proof {
        assert(v@ =~= lit_drop_open());
    }
    v
}

/// The bytes `","slot":` as a vector.
fn lit_drop_slot_vec() -> (v: Vec<u8>)
    ensures
        v@ == lit_drop_slot(),
{
    let v: Vec<u8> = vec![34u8, 44u8, 34u8, 115u8, 108u8, 111u8, 116u8, 34u8, 58u8];
    proof {
        assert(v@ =~= lit_drop_slot());
    }
    v
}

/// Whether the bytes of `lit` occur in `s` at position `i`.
fn match_bytes(s: &[u8], i: usize, lit: &[u8]) -> (b: bool)
    ensures
        b == match_at(s@, i as int, lit@),
{
    let n = s.len();
    if n < lit.len() || i > n - lit.len() {
        return false;
    }
    let mut k: usize = 0;
    while k < lit.len()
        invariant
            n == s@.len(),
            i + lit@.len() <= n,
            0 <= k <= lit@.len(),
            forall|m: int| 0 <= m < k ==> s@[i + m] == lit@[m],
        decreases lit@.len() - k,
    {
        if s[i + k] != lit[k] {
            proof {
                if match_at(s@, i as int, lit@) {
                    assert(s@.subrange(i as int, i as int + lit@.len() as int)[k as int]
                        == lit@[k as int]);
                }
            }
            return false;
        }
        k = k + 1;
    }
    proof {
        assert(s@.subrange(i as int, i as int + lit@.len() as int) =~= lit@);
    }
    true
}

/// The end of the digit run of `s` that starts at `i`.
fn digit_run(s: &[u8], i: usize) -> (j: usize)
    requires
        i <= s@.len(),
    ensures
        j == digit_run_end(s@, i as int),
        i <= j <= s@.len(),
{
    let mut cur = i;
    while cur < s.len() && 48 <= s[cur] && s[cur] <= 57
        invariant
            i <= cur <= s@.len(),
            digit_run_end(s@, i as int) == digit_run_end(s@, cur as int),
        decreases s@.len() - cur,
    {
        cur = cur + 1;
    }
    cur
}

/// The position of the quote that closes the string region starting at `i`.
fn find_string_end(s: &[u8], i: usize) -> (r: Option<usize>)
    requires
        i <= s@.len(),
    ensures
        match r {
            Some(j) => string_end(s@, i as int) == Some(j as int) && i <= j < s@.len(),
            None => string_end(s@, i as int) is None,
        },
{
    let mut cur = i;
    loop
        invariant
            i <= cur <= s@.len(),
            string_end(s@, i as int) == string_end(s@, cur as int),
        decreases s@.len() - cur,
    {
        if cur >= s.len() {
            return None;
        }
        let b = s[cur];
        if b == 34 {
            return Some(cur);
        }
        if b == 92 {
            if cur < s.len() - 1 {
                cur = cur + 2;
            } else {
                proof {
                    assert(!(cur as int + 2 <= s@.len()));
                }
                return None;
            }
        } else {
            cur = cur + 1;
        }
    }
}

/// Copies `s[from..to]` into a fresh vector.
fn copy_range(s: &[u8], from: usize, to: usize) -> (r: Vec<u8>)
    requires
        from <= to <= s@.len(),
    ensures
        r@ == s@.subrange(from as int, to as int),
{
    let mut r: Vec<u8> = Vec::new();
    let mut cur = from;
    while cur < to
        invariant
            from <= cur <= to <= s@.len(),
            r@ =~= s@.subrange(from as int, cur as int),
        decreases to - cur,
    {
        r.push(s[cur]);
        cur = cur + 1;
        proof {
            assert(r@ =~= s@.subrange(from as int, cur as int));
        }
    }
    proof {
        assert(r@ =~= s@.subrange(from as int, to as int));
    }
    r
}

/// Undoes the escaping of the region `s[from..to]`.
fn unescape_range(s: &[u8], from: usize, to: usize) -> (r: Vec<u8>)
    requires
        from <= to <= s@.len(),
    ensures
        r@ == unesc(s@.subrange(from as int, to as int)),
{
    let mut out: Vec<u8> = Vec::new();
    let mut cur = from;
    while cur < to
        invariant
            from <= cur <= to <= s@.len(),
            unesc(s@.subrange(from as int, to as int)) == out@ + unesc(
                s@.subrange(cur as int, to as int),
            ),
        decreases to - cur,
    {
        let ghost r = s@.subrange(cur as int, to as int);
        let b = s[cur];
        if b == 92 && cur + 1 < to {
            out.push(s[cur + 1]);
            cur = cur + 2;
            proof {
                assert(r[0] == 92 && r.len() >= 2);
                assert(r.subrange(2, r.len() as int) =~= s@.subrange(cur as int, to as int));
                assert(unesc(s@.subrange(from as int, to as int)) =~= out@ + unesc(
                    s@.subrange(cur as int, to as int),
                ));
            }
        } else {
            out.push(b);
            cur = cur + 1;
            proof {
                assert(r[0] == b);
                assert(!(r[0] == 92 && r.len() >= 2));
                assert(r.drop_first() =~= s@.subrange(cur as int, to as int));
                assert(unesc(s@.subrange(from as int, to as int)) =~= out@ + unesc(
                    s@.subrange(cur as int, to as int),
                ));
            }
        }
    }
    proof {
        assert(s@.subrange(to as int, to as int) =~= Seq::<u8>::empty());
        assert(out@ =~= unesc(s@.subrange(from as int, to as int)));
    }
    out
}

/// Relies on `String::from_utf8`: it returns `Ok` exactly on valid UTF-8, and
/// the returned string holds the characters those bytes encode.
#[verifier::external_body]
fn bytes_to_string(v: Vec<u8>) -> (r: Option<String>)
    ensures
        r is Some <==> valid_utf8(v@),
        r matches Some(s) ==> s@ == decode_utf8(v@),
{
    String::from_utf8(v).ok()
}

/// Appends the escaped form of `b` to `out`.
fn escape_into(out: &mut Vec<u8>, b: &[u8])
    ensures
        final(out)@ == old(out)@ + esc(b@),
{
    let mut i: usize = 0;
    while i < b.len()
        invariant
            0 <= i <= b@.len(),
            out@ == old(out)@ + esc(b@.subrange(0, i as int)),
        decreases b@.len() - i,
    {
        let x = b[i];
        if x == 34 || x == 92 {
            out.push(92);
            out.push(x);
        } else {
            out.push(x);
        }
        i = i + 1;
        proof {
            let pre = b@.subrange(0, i as int - 1);
            let one = seq![b@[i as int - 1]];
            lemma_esc_concat(pre, one);
            assert(b@.subrange(0, i as int) =~= pre + one);
            assert(one.drop_first() =~= Seq::<u8>::empty());
            assert(esc(Seq::<u8>::empty()) == Seq::<u8>::empty());
            if x == 34 || x == 92 {
                assert(esc(one) =~= seq![92u8, x]);
            } else {
                assert(esc(one) =~= seq![x]);
            }
            assert(out@ =~= old(out)@ + esc(b@.subrange(0, i as int)));
        }
    }
    proof {
        assert(b@.subrange(0, b@.len() as int) =~= b@);
    }
}

/// Renders an item in the wire form.
pub fn encode_item(item: &Item) -> (r: Vec<u8>)
    ensures
        r@ == spec_encode_item(item@),
{
    let mut out: Vec<u8> = Vec::new();
    let mut lit = lit_item_open_vec();
    out.append(&mut lit);
    let mut idb = encode_u64(item.id);
    out.append(&mut idb);
    let mut namelit = lit_item_name_vec();
    out.append(&mut namelit);
    let name_bytes = item.name.as_str().as_bytes_vec();
    escape_into(&mut out, name_bytes.as_slice());
    let mut pricelit = lit_item_price_vec();
    out.append(&mut pricelit);
    let mut pb = encode_u64(item.price);
    out.append(&mut pb);
    out.push(125);
    proof {
        reveal(spec_encode_item);
        assert(out@ =~= spec_encode_item(item@));
    }
    out
}

/// Renders a drop order in the wire form.
pub fn encode_drop_request(machine: &str, slot: u8) -> (r: Vec<u8>)
    ensures
        r@ == spec_encode_drop(machine@, slot),
{
    let mut out: Vec<u8> = Vec::new();
    let mut lit = lit_drop_open_vec();
    out.append(&mut lit);
    let name_bytes = machine.as_bytes_vec();
    escape_into(&mut out, name_bytes.as_slice());
    let mut slotlit = lit_drop_slot_vec();
    out.append(&mut slotlit);
    let mut sb = encode_u64(slot as u64);
    out.append(&mut sb);
    out.push(125);
    proof {
        assert(out@ =~= spec_encode_drop(machine@, slot));
    }
    out
}

/// Reads one item starting at position `i`; hands back the record and the
/// position right after it.
pub fn decode_item_at(s: &[u8], i: usize) -> (r: Option<(Item, usize)>)
    requires
        i <= s@.len(),
    ensures
        match r {
            Some((item, end)) => spec_decode_item_at(s@, i as int) == Some((item@, end as int))
                && i < end <= s@.len(),
            None => spec_decode_item_at(s@, i as int) is None,
        },
{
    let n = s.len();
    let open_lit = lit_item_open_vec();
    if !match_bytes(s, i, open_lit.as_slice()) {
        return None;
    }
    let i0: usize = i + 6;
    proof {
        lemma_digit_run(s@, i0 as int);
    }
    let i1 = digit_run(s, i0);
    if i1 == i0 {
        return None;
    }
    let seg = copy_range(s, i0, i1);
    let id = match parse_u64(seg.as_slice()) {
        Some(v) => v,
        None => {
            return None;
        },
    };
    let name_lit = lit_item_name_vec();
    if !match_bytes(s, i1, name_lit.as_slice()) {
        return None;
    }
    proof {
        assert(i1 as int + 9 <= n);
    }
    let i2 = i1 + 9;
    let i3 = match find_string_end(s, i2) {
        Some(j) => j,
        None => {
            return None;
        },
    };
    let raw = unescape_range(s, i2, i3);
    let name = match bytes_to_string(raw) {
        Some(n) => n,
        None => {
            return None;
        },
    };
    let price_lit = lit_item_price_vec();
    if !match_bytes(s, i3, price_lit.as_slice()) {
        return None;
    }
    proof {
        assert(i3 as int + 10 <= n);
    }
    let i4 = i3 + 10;
    proof {
        lemma_digit_run(s@, i4 as int);
    }
    let i5 = digit_run(s, i4);
    if i5 == i4 {
        return None;
    }
    let seg2 = copy_range(s, i4, i5);
    let price = match parse_u64(seg2.as_slice()) {
        Some(v) => v,
        None => {
            return None;
        },
    };
    if i5 >= n {
        return None;
    }
    if s[i5] != 125 {
        return None;
    }
    Some((Item { id, name, price }, i5 + 1))
}

/// Reads an item from the wire form; `None` on any other bytes.
pub fn decode_item(s: &[u8]) -> (r: Option<Item>)
    ensures
        match r {
            Some(item) => spec_decode_item(s@) == Some(item@),
            None => spec_decode_item(s@) is None,
        },
{
    match decode_item_at(s, 0) {
        Some((item, end)) => {
            if end == s.len() {
                Some(item)
            } else {
                None
            }
        },
        None => None,
    }
}

/// Wherever the wire bytes of an item stand in a larger string, reading from
/// their start finds exactly that record and stops right after them.
pub proof fn lemma_item_decode_at(s: Seq<u8>, i: int, v: ItemV)
    requires
        0 <= i,
        i + spec_encode_item(v).len() <= s.len(),
        s.subrange(i, i + spec_encode_item(v).len()) == spec_encode_item(v),
    ensures
        spec_decode_item_at(s, i) == Some((v, i + spec_encode_item(v).len())),
{
    broadcast use vstd::utf8::encode_utf8_valid_utf8;
    broadcast use vstd::utf8::encode_utf8_decode_utf8;

    reveal(spec_encode_item);
    let e = spec_encode_item(v);
    let idb = dec_rep(v.id as nat);
    let nameb = esc(encode_utf8(v.name));
    let priceb = dec_rep(v.price as nat);
    lemma_dec_rep_val(v.id as nat);
    lemma_dec_rep_val(v.price as nat);
    assert(forall|k: int| 0 <= k < e.len() ==> s[i + k] == #[trigger] e[k]) by {
        assert(forall|k: int|
            0 <= k < e.len() ==> s.subrange(i, i + e.len() as int)[k] == #[trigger] e[k]);
    }
    let a0 = i + lit_item_open().len() as int;
    let a1 = a0 + idb.len() as int;
    let a2 = a1 + lit_item_name().len() as int;
    let a3 = a2 + nameb.len() as int;
    let a4 = a3 + lit_item_price().len() as int;
    let a5 = a4 + priceb.len() as int;
    assert(i + e.len() == a5 + 1);
    assert(s.subrange(i, a0) =~= lit_item_open());
    assert(match_at(s, i, lit_item_open()));
    assert forall|m: int| 0 <= m < idb.len() implies s.subrange(a0, a1)[m] == idb[m] by {
        assert(s[a0 + m] == e[(a0 - i) + m]);
    }
    assert(s.subrange(a0, a1) =~= idb);
    assert forall|m: int|
        0 <= m < lit_item_name().len() implies s.subrange(a1, a2)[m] == lit_item_name()[m] by {
        assert(s[a1 + m] == e[(a1 - i) + m]);
    }
    assert(s.subrange(a1, a2) =~= lit_item_name());
    assert forall|m: int| 0 <= m < nameb.len() implies s.subrange(a2, a3)[m] == nameb[m] by {
        assert(s[a2 + m] == e[(a2 - i) + m]);
    }
    assert(s.subrange(a2, a3) =~= nameb);
    assert forall|m: int|
        0 <= m < lit_item_price().len() implies s.subrange(a3, a4)[m] == lit_item_price()[m] by {
        assert(s[a3 + m] == e[(a3 - i) + m]);
    }
    assert(s.subrange(a3, a4) =~= lit_item_price());
    assert forall|m: int| 0 <= m < priceb.len() implies s.subrange(a4, a5)[m] == priceb[m] by {
        assert(s[a4 + m] == e[(a4 - i) + m]);
    }
    assert(s.subrange(a4, a5) =~= priceb);
    assert(s[a5] == e[a5 - i] == 125);
    // the id digits
    assert(forall|k: int| a0 <= k < a1 ==> is_digit_byte(#[trigger] s[k])) by {
        assert(forall|k: int| a0 <= k < a1 ==> s[k] == s.subrange(a0, a1)[k - a0]);
    }
    assert(s[a1] == lit_item_name()[0] == 44);
    lemma_digit_run_exact(s, a0, a1);
    assert(dec_val(s.subrange(a0, a1)) == v.id);
    // the name region
    assert(s[a3] == lit_item_price()[0] == 34);
    lemma_string_end_esc(s, a2, encode_utf8(v.name));
    assert(string_end(s, a2) == Some(a3));
    assert(unesc(s.subrange(a2, a3)) == encode_utf8(v.name));
    assert(valid_utf8(encode_utf8(v.name)));
    assert(decode_utf8(encode_utf8(v.name)) == v.name);
    // the price digits
    assert(forall|k: int| a4 <= k < a5 ==> is_digit_byte(#[trigger] s[k])) by {
        assert(forall|k: int| a4 <= k < a5 ==> s[k] == s.subrange(a4, a5)[k - a4]);
    }
    assert(!is_digit_byte(s[a5]));
    lemma_digit_run_exact(s, a4, a5);
    assert(dec_val(s.subrange(a4, a5)) == v.price);
    assert(spec_decode_item_at(s, i) == Some((v, a5 + 1)));
}

/// Law: an item survives a full encode/decode cycle; in particular its name
/// and its price come back unchanged.
pub proof fn lemma_item_round_trip(v: ItemV)
    ensures
        spec_decode_item(spec_encode_item(v)) == Some(v),
{
    let s = spec_encode_item(v);
    assert(s.subrange(0, s.len() as int) =~= s);
    lemma_item_decode_at(s, 0, v);
}

// A slot is written as
// `{"active":B,"count":N,"empty":B,"item":{...},"machine":N,"number":N}`,
// with the booleans as `true`/`false`, a missing count as `null`, and the
// item in its own wire form.
/// The bytes `{"active":` that open a slot object.
pub open spec fn lit_slot_active() -> Seq<u8> {
    seq![123u8, 34u8, 97u8, 99u8, 116u8, 105u8, 118u8, 101u8, 34u8, 58u8]
}

/// The bytes `,"count":`.
pub open spec fn lit_slot_count() -> Seq<u8> {
    seq![44u8, 34u8, 99u8, 111u8, 117u8, 110u8, 116u8, 34u8, 58u8]
}

/// The bytes `,"empty":`.
pub open spec fn lit_slot_empty() -> Seq<u8> {
    seq![44u8, 34u8, 101u8, 109u8, 112u8, 116u8, 121u8, 34u8, 58u8]
}

/// The bytes `,"item":`.
pub open spec fn lit_slot_item() -> Seq<u8> {
    seq![44u8, 34u8, 105u8, 116u8, 101u8, 109u8, 34u8, 58u8]
}

/// The bytes `,"machine":`.
pub open spec fn lit_slot_machine() -> Seq<u8> {
    seq![44u8, 34u8, 109u8, 97u8, 99u8, 104u8, 105u8, 110u8, 101u8, 34u8, 58u8]
}

/// The bytes `,"number":`.
pub open spec fn lit_slot_number() -> Seq<u8> {
    seq![44u8, 34u8, 110u8, 117u8, 109u8, 98u8, 101u8, 114u8, 34u8, 58u8]
}

/// The bytes `true`.
pub open spec fn lit_true() -> Seq<u8> {
    seq![116u8, 114u8, 117u8, 101u8]
}

/// The bytes `false`.
pub open spec fn lit_false() -> Seq<u8> {
    seq![102u8, 97u8, 108u8, 115u8, 101u8]
}

/// The bytes `null`.
pub open spec fn lit_null() -> Seq<u8> {
    seq![110u8, 117u8, 108u8, 108u8]
}

/// The wire bytes of a boolean.
pub open spec fn bool_rep(b: bool) -> Seq<u8> {
    if b {
        lit_true()
    } else {
        lit_false()
    }
}

/// The wire bytes of an optional count: its digits, or `null`.
pub open spec fn count_rep(c: Option<u64>) -> Seq<u8> {
    match c {
        Some(n) => dec_rep(n as nat),
        None => lit_null(),
    }
}

/// The wire bytes of a slot.
#[verifier::opaque]
pub open spec fn spec_encode_slot(v: SlotV) -> Seq<u8> {
    lit_slot_active() + bool_rep(v.active) + lit_slot_count() + count_rep(v.count)
        + lit_slot_empty() + bool_rep(v.empty) + lit_slot_item() + spec_encode_item(v.item)
        + lit_slot_machine() + dec_rep(v.machine as nat) + lit_slot_number() + dec_rep(
        v.number as nat,
    ) + seq![125u8]
}

/// Reads a boolean starting at position `i`.
pub open spec fn spec_decode_bool_at(s: Seq<u8>, i: int) -> Option<(bool, int)> {
    if match_at(s, i, lit_true()) {
        Some((true, i + lit_true().len() as int))
    } else if match_at(s, i, lit_false()) {
        Some((false, i + lit_false().len() as int))
    } else {
        None
    }
}

/// Reads a run of digits as a `u64` starting at position `i`.
pub open spec fn spec_decode_u64_at(s: Seq<u8>, i: int) -> Option<(u64, int)> {
    if !(0 <= i <= s.len()) {
        None
    } else {
        let j = digit_run_end(s, i);
        if j == i || !(dec_val(s.subrange(i, j)) <= u64::MAX) {
            None
        } else {
            Some((dec_val(s.subrange(i, j)) as u64, j))
        }
    }
}

/// Reads an optional count starting at position `i`: `null`, or digits.
pub open spec fn spec_decode_count_at(s: Seq<u8>, i: int) -> Option<(Option<u64>, int)> {
    if match_at(s, i, lit_null()) {
        Some((None, i + lit_null().len() as int))
    } else {
        match spec_decode_u64_at(s, i) {
            Some((n, j)) => Some((Some(n), j)),
            None => None,
        }
    }
}

/// Reads one slot starting at position `i`: its fields in the wire order,
/// then the record and the position right after it; `None` when the bytes do
/// not follow the wire form.
pub open spec fn spec_decode_slot_at(s: Seq<u8>, i: int) -> Option<(SlotV, int)> {
    if !match_at(s, i, lit_slot_active()) {
        None
    } else {
        let j0 = i + lit_slot_active().len() as int;
        match spec_decode_bool_at(s, j0) {
            None => None,
            Some((active, j1)) => {
                if !match_at(s, j1, lit_slot_count()) {
                    None
                } else {
                    let j2 = j1 + lit_slot_count().len() as int;
                    match spec_decode_count_at(s, j2) {
                        None => None,
                        Some((count, j3)) => {
                            if !match_at(s, j3, lit_slot_empty()) {
                                None
                            } else {
                                let j4 = j3 + lit_slot_empty().len() as int;
                                match spec_decode_bool_at(s, j4) {
                                    None => None,
                                    Some((empty, j5)) => {
                                        if !match_at(s, j5, lit_slot_item()) {
                                            None
                                        } else {
                                            let j6 = j5 + lit_slot_item().len() as int;
                                            match spec_decode_item_at(s, j6) {
                                                None => None,
                                                Some((item, j7)) => spec_decode_slot_tail(
                                                    s,
                                                    active,
                                                    count,
                                                    empty,
                                                    item,
                                                    j7,
                                                ),
                                            }
                                        }
                                    },
                                }
                            }
                        },
                    }
                }
            },
        }
    }
}

/// The tail of `spec_decode_slot_at`: the machine and number fields and the
/// closing brace.
pub open spec fn spec_decode_slot_tail(
    s: Seq<u8>,
    active: bool,
    count: Option<u64>,
    empty: bool,
    item: ItemV,
    j7: int,
) -> Option<(SlotV, int)> {
    if !match_at(s, j7, lit_slot_machine()) {
        None
    } else {
        let j8 = j7 + lit_slot_machine().len() as int;
        match spec_decode_u64_at(s, j8) {
            None => None,
            Some((machine, j9)) => {
                if !match_at(s, j9, lit_slot_number()) {
                    None
                } else {
                    let j10 = j9 + lit_slot_number().len() as int;
                    match spec_decode_u64_at(s, j10) {
                        None => None,
                        Some((number, j11)) => {
                            if !(number <= u8::MAX) {
                                None
                            } else if !(j11 < s.len() && s[j11] == 125) {
                                None
                            } else {
                                Some(
                                    (
                                        SlotV {
                                            active,
                                            count,
                                            empty,
                                            item,
                                            machine,
                                            number: number as u8,
                                        },
                                        j11 + 1,
                                    ),
                                )
                            }
                        },
                    }
                }
            },
        }
    }
}

/// The decoder of the wire form of a slot: the whole string must be one
/// slot, and that record is the result.
pub open spec fn spec_decode_slot(s: Seq<u8>) -> Option<SlotV> {
    match spec_decode_slot_at(s, 0) {
        Some((v, end)) => if end == s.len() {
            Some(v)
        } else {
            None
        },
        None => None,
    }
}

/// The bytes `{"active":` as a vector.
fn lit_slot_active_vec() -> (v: Vec<u8>)
    ensures
        v@ == lit_slot_active(),
{
    let v: Vec<u8> = vec![123u8, 34u8, 97u8, 99u8, 116u8, 105u8, 118u8, 101u8, 34u8, 58u8];
    proof {
        assert(v@ =~= lit_slot_active());
    }
    v
}

/// The bytes `,"count":` as a vector.
fn lit_slot_count_vec() -> (v: Vec<u8>)
    ensures
        v@ == lit_slot_count(),
{
    let v: Vec<u8> = vec![44u8, 34u8, 99u8, 111u8, 117u8, 110u8, 116u8, 34u8, 58u8];
    proof {
        assert(v@ =~= lit_slot_count());
    }
    v
}

/// The bytes `,"empty":` as a vector.
fn lit_slot_empty_vec() -> (v: Vec<u8>)
    ensures
        v@ == lit_slot_empty(),
{
    let v: Vec<u8> = vec![44u8, 34u8, 101u8, 109u8, 112u8, 116u8, 121u8, 34u8, 58u8];
    proof {
        assert(v@ =~= lit_slot_empty());
    }
    v
}

/// The bytes `,"item":` as a vector.
fn lit_slot_item_vec() -> (v: Vec<u8>)
    ensures
        v@ == lit_slot_item(),
{
    let v: Vec<u8> = vec![44u8, 34u8, 105u8, 116u8, 101u8, 109u8, 34u8, 58u8];
    proof {
        assert(v@ =~= lit_slot_item());
    }
    v
}

/// The bytes `,"machine":` as a vector.
fn lit_slot_machine_vec() -> (v: Vec<u8>)
    ensures
        v@ == lit_slot_machine(),
{
    let v: Vec<u8> = vec![44u8, 34u8, 109u8, 97u8, 99u8, 104u8, 105u8, 110u8, 101u8, 34u8, 58u8];
    proof {
        assert(v@ =~= lit_slot_machine());
    }
    v
}

/// The bytes `,"number":` as a vector.
fn lit_slot_number_vec() -> (v: Vec<u8>)
    ensures
        v@ == lit_slot_number(),
{
    let v: Vec<u8> = vec![44u8, 34u8, 110u8, 117u8, 109u8, 98u8, 101u8, 114u8, 34u8, 58u8];
    proof {
        assert(v@ =~= lit_slot_number());
    }
    v
}

/// The bytes `null` as a vector.
fn lit_null_vec() -> (v: Vec<u8>)
    ensures
        v@ == lit_null(),
{
    let v: Vec<u8> = vec![110u8, 117u8, 108u8, 108u8];
    proof {
        assert(v@ =~= lit_null());
    }
    v
}

/// The wire bytes of a boolean, as a vector.
fn bool_vec(b: bool) -> (v: Vec<u8>)
    ensures
        v@ == bool_rep(b),
{
    if b {
        let v: Vec<u8> = vec![116u8, 114u8, 117u8, 101u8];
        proof {
            assert(v@ =~= lit_true());
        }
        v
    } else {
        let v: Vec<u8> = vec![102u8, 97u8, 108u8, 115u8, 101u8];
        proof {
            assert(v@ =~= lit_false());
        }
        v
    }
}

/// Reads a boolean starting at position `i`.
fn decode_bool_at(s: &[u8], i: usize) -> (r: Option<(bool, usize)>)
    ensures
        match r {
            Some((b, end)) => spec_decode_bool_at(s@, i as int) == Some((b, end as int)) && i < end
                <= s@.len(),
            None => spec_decode_bool_at(s@, i as int) is None,
        },
{
    let n = s.len();
    let t = lit_true_vec();
    if match_bytes(s, i, t.as_slice()) {
        proof {
            assert(i + 4 <= n);
        }
        return Some((true, i + 4));
    }
    let f = lit_false_vec();
    if match_bytes(s, i, f.as_slice()) {
        proof {
            assert(i + 5 <= n);
        }
        return Some((false, i + 5));
    }
    None
}

/// The bytes `true` as a vector.
fn lit_true_vec() -> (v: Vec<u8>)
    ensures
        v@ == lit_true(),
{
    bool_vec(true)
}

/// The bytes `false` as a vector.
fn lit_false_vec() -> (v: Vec<u8>)
    ensures
        v@ == lit_false(),
{
    bool_vec(false)
}

/// Reads a run of digits as a `u64` starting at position `i`.
fn decode_u64_at(s: &[u8], i: usize) -> (r: Option<(u64, usize)>)
    requires
        i <= s@.len(),
    ensures
        match r {
            Some((v, end)) => spec_decode_u64_at(s@, i as int) == Some((v, end as int)) && i < end
                <= s@.len(),
            None => spec_decode_u64_at(s@, i as int) is None,
        },
{
    proof {
        lemma_digit_run(s@, i as int);
    }
    let j = digit_run(s, i);
    if j == i {
        return None;
    }
    let seg = copy_range(s, i, j);
    match parse_u64(seg.as_slice()) {
        Some(v) => Some((v, j)),
        None => None,
    }
}

/// Reads an optional count starting at position `i`: `null`, or digits.
fn decode_count_at(s: &[u8], i: usize) -> (r: Option<(Option<u64>, usize)>)
    requires
        i <= s@.len(),
    ensures
        match r {
            Some((c, end)) => spec_decode_count_at(s@, i as int) == Some((c, end as int)) && i < end
                <= s@.len(),
            None => spec_decode_count_at(s@, i as int) is None,
        },
{
    let n = s.len();
    let nul = lit_null_vec();
    if match_bytes(s, i, nul.as_slice()) {
        proof {
            assert(i + 4 <= n);
        }
        return Some((None, i + 4));
    }
    match decode_u64_at(s, i) {
        Some((v, end)) => Some((Some(v), end)),
        None => None,
    }
}

/// Renders a slot in the wire form.
pub fn encode_slot(slot: &Slot) -> (r: Vec<u8>)
    ensures
        r@ == spec_encode_slot(slot@),
{
    let mut out: Vec<u8> = Vec::new();
    let mut lit = lit_slot_active_vec();
    out.append(&mut lit);
    let mut flag = bool_vec(slot.active);
    out.append(&mut flag);
    let mut lit = lit_slot_count_vec();
    out.append(&mut lit);
    let mut count = match slot.count {
        Some(n) => encode_u64(n),
        None => lit_null_vec(),
    };
    out.append(&mut count);
    let mut lit = lit_slot_empty_vec();
    out.append(&mut lit);
    let mut flag = bool_vec(slot.empty);
    out.append(&mut flag);
    let mut lit = lit_slot_item_vec();
    out.append(&mut lit);
    let mut item = encode_item(&slot.item);
    out.append(&mut item);
    let mut lit = lit_slot_machine_vec();
    out.append(&mut lit);
    let mut machine = encode_u64(slot.machine);
    out.append(&mut machine);
    let mut lit = lit_slot_number_vec();
    out.append(&mut lit);
    let mut number = encode_u64(slot.number as u64);
    out.append(&mut number);
    out.push(125);
    proof {
        reveal(spec_encode_slot);
        assert(out@ =~= spec_encode_slot(slot@));
    }
    out
}

/// Reads one slot starting at position `i`; hands back the record and the
/// position right after it.
pub fn decode_slot_at(s: &[u8], i: usize) -> (r: Option<(Slot, usize)>)
    requires
        i <= s@.len(),
    ensures
        match r {
            Some((slot, end)) => spec_decode_slot_at(s@, i as int) == Some((slot@, end as int))
                && i < end <= s@.len(),
            None => spec_decode_slot_at(s@, i as int) is None,
        },
{
    let n = s.len();
    let lit = lit_slot_active_vec();
    if !match_bytes(s, i, lit.as_slice()) {
        return None;
    }
    proof {
        assert(i + 10 <= n);
    }
    let j0 = i + 10;
    let (active, j1) = match decode_bool_at(s, j0) {
        Some(x) => x,
        None => {
            return None;
        },
    };
    let lit = lit_slot_count_vec();
    if !match_bytes(s, j1, lit.as_slice()) {
        return None;
    }
    proof {
        assert(j1 + 9 <= n);
    }
    let j2 = j1 + 9;
    let (count, j3) = match decode_count_at(s, j2) {
        Some(x) => x,
        None => {
            return None;
        },
    };
    let lit = lit_slot_empty_vec();
    if !match_bytes(s, j3, lit.as_slice()) {
        return None;
    }
    proof {
        assert(j3 + 9 <= n);
    }
    let j4 = j3 + 9;
    let (empty, j5) = match decode_bool_at(s, j4) {
        Some(x) => x,
        None => {
            return None;
        },
    };
    let lit = lit_slot_item_vec();
    if !match_bytes(s, j5, lit.as_slice()) {
        return None;
    }
    proof {
        assert(j5 + 8 <= n);
    }
    let j6 = j5 + 8;
    let (item, j7) = match decode_item_at(s, j6) {
        Some(x) => x,
        None => {
            return None;
        },
    };
    let lit = lit_slot_machine_vec();
    if !match_bytes(s, j7, lit.as_slice()) {
        return None;
    }
    proof {
        assert(j7 + 11 <= n);
    }
    let j8 = j7 + 11;
    let (machine, j9) = match decode_u64_at(s, j8) {
        Some(x) => x,
        None => {
            return None;
        },
    };
    let lit = lit_slot_number_vec();
    if !match_bytes(s, j9, lit.as_slice()) {
        return None;
    }
    proof {
        assert(j9 + 10 <= n);
    }
    let j10 = j9 + 10;
    let (number, j11) = match decode_u64_at(s, j10) {
        Some(x) => x,
        None => {
            return None;
        },
    };
    if number > 255 {
        return None;
    }
    if j11 >= n {
        return None;
    }
    if s[j11] != 125 {
        return None;
    }
    Some((Slot { active, count, empty, item, machine, number: number as u8 }, j11 + 1))
}

/// Reads a slot from the wire form; `None` on any other bytes.
pub fn decode_slot(s: &[u8]) -> (r: Option<Slot>)
    ensures
        match r {
            Some(slot) => spec_decode_slot(s@) == Some(slot@),
            None => spec_decode_slot(s@) is None,
        },
{
    match decode_slot_at(s, 0) {
        Some((slot, end)) => {
            if end == s.len() {
                Some(slot)
            } else {
                None
            }
        },
        None => None,
    }
}

/// Wherever the wire bytes of a boolean stand, reading from their start finds
/// that boolean.
proof fn lemma_bool_decode_at(s: Seq<u8>, i: int, b: bool)
    requires
        0 <= i,
        i + bool_rep(b).len() <= s.len(),
        s.subrange(i, i + bool_rep(b).len()) == bool_rep(b),
    ensures
        spec_decode_bool_at(s, i) == Some((b, i + bool_rep(b).len())),
{
    if b {
        assert(match_at(s, i, lit_true()));
    } else {
        assert(match_at(s, i, lit_false()));
        if match_at(s, i, lit_true()) {
            assert(s.subrange(i, i + 4)[0] == lit_true()[0]);
            assert(s.subrange(i, i + 5)[0] == lit_false()[0]);
            assert(false);
        }
    }
}

/// Wherever the wire digits of a `u64` stand, with no digit right after them,
/// reading from their start finds that number.
proof fn lemma_u64_decode_at(s: Seq<u8>, i: int, n: u64)
    requires
        0 <= i,
        i + dec_rep(n as nat).len() <= s.len(),
        s.subrange(i, i + dec_rep(n as nat).len()) == dec_rep(n as nat),
        i + dec_rep(n as nat).len() == s.len() || !is_digit_byte(
            s[i + dec_rep(n as nat).len() as int],
        ),
    ensures
        spec_decode_u64_at(s, i) == Some((n, i + dec_rep(n as nat).len())),
{
    let e = dec_rep(n as nat);
    lemma_dec_rep_val(n as nat);
    assert forall|k: int| i <= k < i + e.len() implies is_digit_byte(#[trigger] s[k]) by {
        assert(s.subrange(i, i + e.len() as int)[k - i] == e[k - i]);
    }
    lemma_digit_run_exact(s, i, i + e.len() as int);
}

/// Wherever the wire bytes of an optional count stand, with no digit right
/// after them, reading from their start finds that count.
proof fn lemma_count_decode_at(s: Seq<u8>, i: int, c: Option<u64>)
    requires
        0 <= i,
        i + count_rep(c).len() <= s.len(),
        s.subrange(i, i + count_rep(c).len()) == count_rep(c),
        c is Some ==> (i + count_rep(c).len() == s.len() || !is_digit_byte(
            s[i + count_rep(c).len() as int],
        )),
    ensures
        spec_decode_count_at(s, i) == Some((c, i + count_rep(c).len())),
{
    match c {
        None => {
            assert(match_at(s, i, lit_null()));
        },
        Some(n) => {
            lemma_dec_rep_val(n as nat);
            assert(s.subrange(i, i + count_rep(c).len() as int)[0] == dec_rep(n as nat)[0]);
            if match_at(s, i, lit_null()) {
                assert(s.subrange(i, i + 4)[0] == lit_null()[0]);
                assert(false);
            }
            lemma_u64_decode_at(s, i, n);
        },
    }
}

/// The two halves of a concatenation stand at its two ends.
proof fn lemma_concat_parts(x: Seq<u8>, y: Seq<u8>)
    ensures
        (x + y).len() == x.len() + y.len(),
        (x + y).subrange(0, x.len() as int) == x,
        (x + y).subrange(x.len() as int, (x + y).len() as int) == y,
{
    assert((x + y).subrange(0, x.len() as int) =~= x);
    assert((x + y).subrange(x.len() as int, (x + y).len() as int) =~= y);
}

/// A subrange that lies within a prefix reads the same from the whole string
/// and from the prefix.
proof fn lemma_subrange_within_prefix(s: Seq<u8>, p: Seq<u8>, a: int, b: int)
    requires
        p.len() <= s.len(),
        s.subrange(0, p.len() as int) == p,
        0 <= a <= b <= p.len(),
    ensures
        s.subrange(a, b) == p.subrange(a, b),
{
    assert forall|m: int| 0 <= m < b - a implies s.subrange(a, b)[m] == p.subrange(a, b)[m] by {
        assert(p[a + m] == s.subrange(0, p.len() as int)[a + m]);
    }
    assert(s.subrange(a, b) =~= p.subrange(a, b));
}

/// Where each piece of a slot's wire bytes stands.
#[verifier::rlimit(50)]
proof fn lemma_slot_layout(v: SlotV)
    ensures
        ({
            let s = spec_encode_slot(v);
            let b0 = lit_slot_active().len() as int;
            let b1 = b0 + bool_rep(v.active).len() as int;
            let b2 = b1 + lit_slot_count().len() as int;
            let b3 = b2 + count_rep(v.count).len() as int;
            let b4 = b3 + lit_slot_empty().len() as int;
            let b5 = b4 + bool_rep(v.empty).len() as int;
            let b6 = b5 + lit_slot_item().len() as int;
            let b7 = b6 + spec_encode_item(v.item).len() as int;
            let b8 = b7 + lit_slot_machine().len() as int;
            let b9 = b8 + dec_rep(v.machine as nat).len() as int;
            let b10 = b9 + lit_slot_number().len() as int;
            let b11 = b10 + dec_rep(v.number as nat).len() as int;
            s.len() == b11 + 1 && s.subrange(0, b0) == lit_slot_active() && s.subrange(b0, b1)
                == bool_rep(v.active) && s.subrange(b1, b2) == lit_slot_count() && s.subrange(
                b2,
                b3,
            ) == count_rep(v.count) && s.subrange(b3, b4) == lit_slot_empty() && s.subrange(b4, b5)
                == bool_rep(v.empty) && s.subrange(b5, b6) == lit_slot_item() && s.subrange(b6, b7)
                == spec_encode_item(v.item) && s.subrange(b7, b8) == lit_slot_machine()
                && s.subrange(b8, b9) == dec_rep(v.machine as nat) && s.subrange(b9, b10)
                == lit_slot_number() && s.subrange(b10, b11) == dec_rep(v.number as nat) && s[b11]
                == 125
        }),
{
    reveal(spec_encode_slot);
    let s = spec_encode_slot(v);
    let l1 = lit_slot_active();
    let ab = bool_rep(v.active);
    let l2 = lit_slot_count();
    let cb = count_rep(v.count);
    let l3 = lit_slot_empty();
    let eb = bool_rep(v.empty);
    let l4 = lit_slot_item();
    let ib = spec_encode_item(v.item);
    let l5 = lit_slot_machine();
    let mb = dec_rep(v.machine as nat);
    let l6 = lit_slot_number();
    let nb = dec_rep(v.number as nat);
    let q1 = l1 + ab;
    let q2 = q1 + l2;
    let q3 = q2 + cb;
    let q4 = q3 + l3;
    let q5 = q4 + eb;
    let q6 = q5 + l4;
    let q7 = q6 + ib;
    let q8 = q7 + l5;
    let q9 = q8 + mb;
    let q10 = q9 + l6;
    let q11 = q10 + nb;
    let brace = seq![125u8];
    assert(s == q11 + brace);
    lemma_concat_parts(q11, brace);
    assert(s[q11.len() as int] == s.subrange(q11.len() as int, s.len() as int)[0]);
    lemma_concat_parts(q10, nb);
    lemma_subrange_within_prefix(s, q11, 0, q10.len() as int);
    lemma_subrange_within_prefix(s, q11, q10.len() as int, q11.len() as int);
    lemma_concat_parts(q9, l6);
    lemma_subrange_within_prefix(s, q10, 0, q9.len() as int);
    lemma_subrange_within_prefix(s, q10, q9.len() as int, q10.len() as int);
    lemma_concat_parts(q8, mb);
    lemma_subrange_within_prefix(s, q9, 0, q8.len() as int);
    lemma_subrange_within_prefix(s, q9, q8.len() as int, q9.len() as int);
    lemma_concat_parts(q7, l5);
    lemma_subrange_within_prefix(s, q8, 0, q7.len() as int);
    lemma_subrange_within_prefix(s, q8, q7.len() as int, q8.len() as int);
    lemma_concat_parts(q6, ib);
    lemma_subrange_within_prefix(s, q7, 0, q6.len() as int);
    lemma_subrange_within_prefix(s, q7, q6.len() as int, q7.len() as int);
    lemma_concat_parts(q5, l4);
    lemma_subrange_within_prefix(s, q6, 0, q5.len() as int);
    lemma_subrange_within_prefix(s, q6, q5.len() as int, q6.len() as int);
    lemma_concat_parts(q4, eb);
    lemma_subrange_within_prefix(s, q5, 0, q4.len() as int);
    lemma_subrange_within_prefix(s, q5, q4.len() as int, q5.len() as int);
    lemma_concat_parts(q3, l3);
    lemma_subrange_within_prefix(s, q4, 0, q3.len() as int);
    lemma_subrange_within_prefix(s, q4, q3.len() as int, q4.len() as int);
    lemma_concat_parts(q2, cb);
    lemma_subrange_within_prefix(s, q3, 0, q2.len() as int);
    lemma_subrange_within_prefix(s, q3, q2.len() as int, q3.len() as int);
    lemma_concat_parts(q1, l2);
    lemma_subrange_within_prefix(s, q2, 0, q1.len() as int);
    lemma_subrange_within_prefix(s, q2, q1.len() as int, q2.len() as int);
    lemma_concat_parts(l1, ab);
    lemma_subrange_within_prefix(s, q1, 0, l1.len() as int);
    lemma_subrange_within_prefix(s, q1, l1.len() as int, q1.len() as int);
}

/// The flags, the count and the item decode as encoded, down to where the
/// machine field starts.
#[verifier::rlimit(50)]
proof fn lemma_slot_head_decodes(s: Seq<u8>, i: int, v: SlotV)
    requires
        0 <= i,
        ({
            let b0 = i + lit_slot_active().len() as int;
            let b1 = b0 + bool_rep(v.active).len() as int;
            let b2 = b1 + lit_slot_count().len() as int;
            let b3 = b2 + count_rep(v.count).len() as int;
            let b4 = b3 + lit_slot_empty().len() as int;
            let b5 = b4 + bool_rep(v.empty).len() as int;
            let b6 = b5 + lit_slot_item().len() as int;
            let b7 = b6 + spec_encode_item(v.item).len() as int;
            b7 <= s.len() && s.subrange(i, b0) == lit_slot_active() && s.subrange(b0, b1)
                == bool_rep(v.active) && s.subrange(b1, b2) == lit_slot_count() && s.subrange(
                b2,
                b3,
            ) == count_rep(v.count) && s.subrange(b3, b4) == lit_slot_empty() && s.subrange(b4, b5)
                == bool_rep(v.empty) && s.subrange(b5, b6) == lit_slot_item() && s.subrange(b6, b7)
                == spec_encode_item(v.item)
        }),
    ensures
        ({
            let b7 = i + lit_slot_active().len() as int + bool_rep(v.active).len() as int
                + lit_slot_count().len() as int + count_rep(v.count).len() as int
                + lit_slot_empty().len() as int + bool_rep(v.empty).len() as int
                + lit_slot_item().len() as int + spec_encode_item(v.item).len() as int;
            spec_decode_slot_at(s, i) == spec_decode_slot_tail(
                s,
                v.active,
                v.count,
                v.empty,
                v.item,
                b7,
            )
        }),
{
    let b0 = i + lit_slot_active().len() as int;
    let b1 = b0 + bool_rep(v.active).len() as int;
    let b2 = b1 + lit_slot_count().len() as int;
    let b3 = b2 + count_rep(v.count).len() as int;
    let b4 = b3 + lit_slot_empty().len() as int;
    let b5 = b4 + bool_rep(v.empty).len() as int;
    let b6 = b5 + lit_slot_item().len() as int;
    let b7 = b6 + spec_encode_item(v.item).len() as int;
    assert(match_at(s, i, lit_slot_active()));
    lemma_bool_decode_at(s, b0, v.active);
    assert(match_at(s, b1, lit_slot_count()));
    assert(s[b3] == lit_slot_empty()[0] == 44);
    lemma_count_decode_at(s, b2, v.count);
    assert(match_at(s, b3, lit_slot_empty()));
    lemma_bool_decode_at(s, b4, v.empty);
    assert(match_at(s, b5, lit_slot_item()));
    lemma_item_decode_at(s, b6, v.item);
}

/// The machine and number fields and the closing brace decode as encoded.
#[verifier::rlimit(50)]
proof fn lemma_slot_tail_decodes(s: Seq<u8>, v: SlotV, j7: int)
    requires
        0 <= j7,
        ({
            let j8 = j7 + lit_slot_machine().len() as int;
            let j9 = j8 + dec_rep(v.machine as nat).len() as int;
            let j10 = j9 + lit_slot_number().len() as int;
            let j11 = j10 + dec_rep(v.number as nat).len() as int;
            j11 < s.len() && s.subrange(j7, j8) == lit_slot_machine() && s.subrange(j8, j9)
                == dec_rep(v.machine as nat) && s.subrange(j9, j10) == lit_slot_number()
                && s.subrange(j10, j11) == dec_rep(v.number as nat) && s[j11] == 125
        }),
    ensures
        ({
            let j11 = j7 + lit_slot_machine().len() as int + dec_rep(v.machine as nat).len() as int
                + lit_slot_number().len() as int + dec_rep(v.number as nat).len() as int;
            spec_decode_slot_tail(s, v.active, v.count, v.empty, v.item, j7) == Some(
                (v, j11 + 1),
            )
        }),
{
    let mb = dec_rep(v.machine as nat);
    let nb = dec_rep(v.number as nat);
    lemma_dec_rep_val(v.machine as nat);
    lemma_dec_rep_val(v.number as nat);
    let j8 = j7 + lit_slot_machine().len() as int;
    let j9 = j8 + mb.len() as int;
    let j10 = j9 + lit_slot_number().len() as int;
    let j11 = j10 + nb.len() as int;
    assert(match_at(s, j7, lit_slot_machine()));
    assert(s[j9] == lit_slot_number()[0] == 44);
    lemma_u64_decode_at(s, j8, v.machine);
    assert(match_at(s, j9, lit_slot_number()));
    assert(!is_digit_byte(s[j11]));
    lemma_u64_decode_at(s, j10, v.number as u64);
    assert(spec_decode_slot_tail(s, v.active, v.count, v.empty, v.item, j7) == Some(
        (v, j11 + 1),
    ));
}

/// A subrange of a subrange reads the same from the whole string.
proof fn lemma_nested_subrange(s: Seq<u8>, i: int, j: int, a: int, b: int)
    requires
        0 <= i <= j <= s.len(),
        0 <= a <= b <= j - i,
    ensures
        s.subrange(i + a, i + b) == s.subrange(i, j).subrange(a, b),
{
    assert(s.subrange(i + a, i + b) =~= s.subrange(i, j).subrange(a, b));
}

/// The first half of an embedded slot's bytes decode as encoded.
#[verifier::rlimit(50)]
proof fn lemma_slot_decode_at_head(s: Seq<u8>, i: int, v: SlotV)
    requires
        0 <= i,
        i + spec_encode_slot(v).len() <= s.len(),
        s.subrange(i, i + spec_encode_slot(v).len()) == spec_encode_slot(v),
    ensures
        ({
            let b7 = i + lit_slot_active().len() as int + bool_rep(v.active).len() as int
                + lit_slot_count().len() as int + count_rep(v.count).len() as int
                + lit_slot_empty().len() as int + bool_rep(v.empty).len() as int
                + lit_slot_item().len() as int + spec_encode_item(v.item).len() as int;
            spec_decode_slot_at(s, i) == spec_decode_slot_tail(
                s,
                v.active,
                v.count,
                v.empty,
                v.item,
                b7,
            )
        }),
{
    let e = spec_encode_slot(v);
    let el = e.len() as int;
    let b0 = lit_slot_active().len() as int;
    let b1 = b0 + bool_rep(v.active).len() as int;
    let b2 = b1 + lit_slot_count().len() as int;
    let b3 = b2 + count_rep(v.count).len() as int;
    let b4 = b3 + lit_slot_empty().len() as int;
    let b5 = b4 + bool_rep(v.empty).len() as int;
    let b6 = b5 + lit_slot_item().len() as int;
    let b7 = b6 + spec_encode_item(v.item).len() as int;
    lemma_slot_layout(v);
    lemma_nested_subrange(s, i, i + el, 0, b0);
    lemma_nested_subrange(s, i, i + el, b0, b1);
    lemma_nested_subrange(s, i, i + el, b1, b2);
    lemma_nested_subrange(s, i, i + el, b2, b3);
    lemma_nested_subrange(s, i, i + el, b3, b4);
    lemma_nested_subrange(s, i, i + el, b4, b5);
    lemma_nested_subrange(s, i, i + el, b5, b6);
    lemma_nested_subrange(s, i, i + el, b6, b7);
    lemma_slot_head_decodes(s, i, v);
}

/// The second half of an embedded slot's bytes decode as encoded.
#[verifier::rlimit(50)]
proof fn lemma_slot_decode_at_tail(s: Seq<u8>, i: int, v: SlotV)
    requires
        0 <= i,
        i + spec_encode_slot(v).len() <= s.len(),
        s.subrange(i, i + spec_encode_slot(v).len()) == spec_encode_slot(v),
    ensures
        ({
            let b7 = i + lit_slot_active().len() as int + bool_rep(v.active).len() as int
                + lit_slot_count().len() as int + count_rep(v.count).len() as int
                + lit_slot_empty().len() as int + bool_rep(v.empty).len() as int
                + lit_slot_item().len() as int + spec_encode_item(v.item).len() as int;
            spec_decode_slot_tail(s, v.active, v.count, v.empty, v.item, b7) == Some(
                (v, i + spec_encode_slot(v).len()),
            )
        }),
{
    let e = spec_encode_slot(v);
    let el = e.len() as int;
    let b7 = lit_slot_active().len() as int + bool_rep(v.active).len() as int
        + lit_slot_count().len() as int + count_rep(v.count).len() as int
        + lit_slot_empty().len() as int + bool_rep(v.empty).len() as int
        + lit_slot_item().len() as int + spec_encode_item(v.item).len() as int;
    let b8 = b7 + lit_slot_machine().len() as int;
    let b9 = b8 + dec_rep(v.machine as nat).len() as int;
    let b10 = b9 + lit_slot_number().len() as int;
    let b11 = b10 + dec_rep(v.number as nat).len() as int;
    lemma_slot_layout(v);
    lemma_nested_subrange(s, i, i + el, b7, b8);
    lemma_nested_subrange(s, i, i + el, b8, b9);
    lemma_nested_subrange(s, i, i + el, b9, b10);
    lemma_nested_subrange(s, i, i + el, b10, b11);
    assert(s[i + b11] == s.subrange(i, i + el)[b11]);
    assert(s[i + b11] == 125);
    lemma_slot_tail_decodes(s, v, i + b7);
}

/// Wherever the wire bytes of a slot stand in a larger string, reading from
/// their start finds exactly that record and stops right after them.
pub proof fn lemma_slot_decode_at(s: Seq<u8>, i: int, v: SlotV)
    requires
        0 <= i,
        i + spec_encode_slot(v).len() <= s.len(),
        s.subrange(i, i + spec_encode_slot(v).len()) == spec_encode_slot(v),
    ensures
        spec_decode_slot_at(s, i) == Some((v, i + spec_encode_slot(v).len())),
{
    lemma_slot_decode_at_head(s, i, v);
    lemma_slot_decode_at_tail(s, i, v);
}

/// Law: a slot survives a full encode/decode cycle; in particular its item's
/// price and name come back unchanged, with the rest of the record.
pub proof fn lemma_slot_round_trip(v: SlotV)
    ensures
        spec_decode_slot(spec_encode_slot(v)) == Some(v),
{
    let s = spec_encode_slot(v);
    assert(s.subrange(0, s.len() as int) =~= s);
    lemma_slot_decode_at(s, 0, v);
}


// A sequence of slots is written as the slots' wire forms separated by
// commas; the brackets around it belong to the record that holds the list.
/// The views of a vector of slots.
pub open spec fn slots_view(ss: Seq<Slot>) -> Seq<SlotV> {
    ss.map_values(|x: Slot| x@)
}

/// The wire bytes of a sequence of slots, separated by commas.
pub open spec fn spec_encode_slots(vs: Seq<SlotV>) -> Seq<u8>
    decreases vs.len(),
{
    if vs.len() == 0 {
        Seq::empty()
    } else if vs.len() == 1 {
        spec_encode_slot(vs[0])
    } else {
        spec_encode_slot(vs[0]) + seq![44u8] + spec_encode_slots(vs.drop_first())
    }
}

/// Reads comma-separated slots starting at position `i`, up to (not over) the
/// closing bracket; hands back the records and the bracket's position.
pub open spec fn spec_decode_slots_at(s: Seq<u8>, i: int) -> Option<(Seq<SlotV>, int)>
    decreases s.len() - i,
    when 0 <= i <= s.len()
{
    if i < s.len() && s[i] == 93 {
        Some((Seq::empty(), i))
    } else {
        match spec_decode_slot_at(s, i) {
            None => None,
            Some((v, j)) => {
                if !(i < j <= s.len()) {
                    None
                } else if j < s.len() && s[j] == 44 {
                    match spec_decode_slots_at(s, j + 1) {
                        None => None,
                        Some((rest, end)) => if rest.len() == 0 {
                            None
                        } else {
                            Some((seq![v] + rest, end))
                        },
                    }
                } else if j < s.len() && s[j] == 93 {
                    Some((seq![v], j))
                } else {
                    None
                }
            },
        }
    }
}

/// Renders the slots of `slots` from index `from` on, separated by commas.
fn encode_slots_from(slots: &Vec<Slot>, from: usize) -> (r: Vec<u8>)
    requires
        from <= slots@.len(),
    ensures
        r@ == spec_encode_slots(slots_view(slots@).subrange(from as int, slots@.len() as int)),
    decreases slots@.len() - from,
{
    let ghost tailv = slots_view(slots@).subrange(from as int, slots@.len() as int);
    if from >= slots.len() {
        let r: Vec<u8> = Vec::new();
        proof {
            assert(tailv =~= Seq::<SlotV>::empty());
        }
        r
    } else {
        let mut out = encode_slot(&slots[from]);
        proof {
            assert(tailv[0] == slots@[from as int]@);
        }
        if from + 1 < slots.len() {
            out.push(44);
            let mut rest = encode_slots_from(slots, from + 1);
            out.append(&mut rest);
            proof {
                assert(tailv.drop_first() =~= slots_view(slots@).subrange(
                    from as int + 1,
                    slots@.len() as int,
                ));
                assert(out@ =~= spec_encode_slot(tailv[0]) + seq![44u8] + spec_encode_slots(
                    tailv.drop_first(),
                ));
            }
        } else {
            proof {
                assert(tailv.len() == 1);
            }
        }
        out
    }
}

/// Renders a sequence of slots in the wire form, commas between them.
pub fn encode_slots(slots: &Vec<Slot>) -> (r: Vec<u8>)
    ensures
        r@ == spec_encode_slots(slots_view(slots@)),
{
    let r = encode_slots_from(slots, 0);
    proof {
        assert(slots_view(slots@).subrange(0, slots@.len() as int) =~= slots_view(slots@));
    }
    r
}

/// Reads comma-separated slots starting at position `i`; hands back the
/// records and the position of the closing bracket.
pub fn decode_slots_at(s: &[u8], i: usize) -> (r: Option<(Vec<Slot>, usize)>)
    requires
        i <= s@.len(),
    ensures
        match r {
            Some((slots, end)) => spec_decode_slots_at(s@, i as int) == Some(
                (slots_view(slots@), end as int),
            ) && i <= end < s@.len(),
            None => spec_decode_slots_at(s@, i as int) is None,
        },
    decreases s@.len() - i,
{
    let n = s.len();
    if i < n && s[i] == 93 {
        let out: Vec<Slot> = Vec::new();
        proof {
            assert(slots_view(out@) =~= Seq::<SlotV>::empty());
        }
        return Some((out, i));
    }
    let (slot, j) = match decode_slot_at(s, i) {
        Some(x) => x,
        None => {
            return None;
        },
    };
    if j < n && s[j] == 44 {
        match decode_slots_at(s, j + 1) {
            Some((rest, end)) => {
                if rest.len() == 0 {
                    return None;
                }
                let mut out: Vec<Slot> = Vec::new();
                out.push(slot);
                let ghost restv = slots_view(rest@);
                let mut rest = rest;
                out.append(&mut rest);
                proof {
                    assert(slots_view(out@) =~= seq![out@[0]@] + restv);
                }
                Some((out, end))
            },
            None => None,
        }
    } else if j < n && s[j] == 93 {
        let mut out: Vec<Slot> = Vec::new();
        out.push(slot);
        proof {
            assert(slots_view(out@) =~= seq![out@[0]@]);
        }
        Some((out, j))
    } else {
        None
    }
}

/// Wherever the wire bytes of a slot sequence stand, followed by the closing
/// bracket, reading from their start finds exactly those records and stops at
/// the bracket.
#[verifier::rlimit(50)]
#[verifier::spinoff_prover]
pub proof fn lemma_slots_decode_at(s: Seq<u8>, i: int, vs: Seq<SlotV>)
    requires
        0 <= i,
        i + spec_encode_slots(vs).len() < s.len(),
        s.subrange(i, i + spec_encode_slots(vs).len()) == spec_encode_slots(vs),
        s[i + spec_encode_slots(vs).len()] == 93,
    ensures
        spec_decode_slots_at(s, i) == Some((vs, i + spec_encode_slots(vs).len())),
    decreases vs.len(),
{
    let enc = spec_encode_slots(vs);
    if vs.len() == 0 {
        assert(s[i] == 93);
    } else if vs.len() == 1 {
        lemma_slot_decode_at(s, i, vs[0]);
        assert(seq![vs[0]] =~= vs);
    } else {
        let enc0 = spec_encode_slot(vs[0]);
        let l0 = enc0.len() as int;
        let rest = vs.drop_first();
        let enc_rest = spec_encode_slots(rest);
        let p = enc0 + seq![44u8];
        assert(enc == p + enc_rest);
        lemma_concat_parts(p, enc_rest);
        lemma_concat_parts(enc0, seq![44u8]);
        // the first slot's bytes
        lemma_nested_subrange(s, i, i + enc.len() as int, 0, l0);
        lemma_nested_subrange(enc, 0, p.len() as int, 0, l0);
        assert(s.subrange(i, i + l0) == enc0);
        lemma_slot_decode_at(s, i, vs[0]);
        // the comma
        assert(s[i + l0] == s.subrange(i, i + enc.len() as int)[l0]);
        assert(enc[l0] == enc.subrange(0, p.len() as int)[l0]);
        assert(p[l0] == p.subrange(l0, p.len() as int)[0]);
        assert(s[i + l0] == 44);
        // the remaining slots
        lemma_nested_subrange(s, i, i + enc.len() as int, l0 + 1, enc.len() as int);
        assert(s.subrange(i + l0 + 1, i + enc.len() as int) == enc_rest);
        lemma_slots_decode_at(s, i + l0 + 1, rest);
        assert(seq![vs[0]] + rest =~= vs);
    }
}

/// Law: a sequence of slots survives a full encode/decode cycle.
pub proof fn lemma_slots_round_trip(vs: Seq<SlotV>)
    ensures
        ({
            let s = spec_encode_slots(vs) + seq![93u8];
            spec_decode_slots_at(s, 0) == Some((vs, spec_encode_slots(vs).len() as int))
        }),
{
    let s = spec_encode_slots(vs) + seq![93u8];
    lemma_concat_parts(spec_encode_slots(vs), seq![93u8]);
    assert(s[spec_encode_slots(vs).len() as int] == s.subrange(
        spec_encode_slots(vs).len() as int,
        s.len() as int,
    )[0]);
    lemma_slots_decode_at(s, 0, vs);
}


// A machine is written as
// `{"display_name":"...","id":N,"is_online":B,"name":"...","slots":[...]}`,
// its slots in the bracketed list.
/// The bytes `{"display_name":"` that open a machine object.
pub open spec fn lit_mach_open() -> Seq<u8> {
    seq![
        123u8,
        34u8,
        100u8,
        105u8,
        115u8,
        112u8,
        108u8,
        97u8,
        121u8,
        95u8,
        110u8,
        97u8,
        109u8,
        101u8,
        34u8,
        58u8,
        34u8,
    ]
}

/// The bytes `","id":`.
pub open spec fn lit_mach_id() -> Seq<u8> {
    seq![34u8, 44u8, 34u8, 105u8, 100u8, 34u8, 58u8]
}

/// The bytes `,"is_online":`.
pub open spec fn lit_mach_online() -> Seq<u8> {
    seq![44u8, 34u8, 105u8, 115u8, 95u8, 111u8, 110u8, 108u8, 105u8, 110u8, 101u8, 34u8, 58u8]
}

/// The bytes `","slots":[`.
pub open spec fn lit_mach_slots() -> Seq<u8> {
    seq![34u8, 44u8, 34u8, 115u8, 108u8, 111u8, 116u8, 115u8, 34u8, 58u8, 91u8]
}

/// The wire bytes of a machine; the name field reuses the item separator
/// `,"name":"`.
#[verifier::opaque]
pub open spec fn spec_encode_machine(v: MachineV) -> Seq<u8> {
    lit_mach_open() + esc(encode_utf8(v.display_name)) + lit_mach_id() + dec_rep(v.id as nat)
        + lit_mach_online() + bool_rep(v.is_online) + lit_item_name() + esc(encode_utf8(v.name))
        + lit_mach_slots() + spec_encode_slots(v.slots) + seq![93u8, 125u8]
}

/// Reads one machine starting at position `i`: its fields in the wire order,
/// then the record and the position right after it; `None` when the bytes do
/// not follow the wire form.
pub open spec fn spec_decode_machine_at(s: Seq<u8>, i: int) -> Option<(MachineV, int)> {
    if !match_at(s, i, lit_mach_open()) {
        None
    } else {
        let j0 = i + lit_mach_open().len() as int;
        match string_end(s, j0) {
            None => None,
            Some(j1) => {
                let dn_bytes = unesc(s.subrange(j0, j1));
                if !valid_utf8(dn_bytes) {
                    None
                } else if !match_at(s, j1, lit_mach_id()) {
                    None
                } else {
                    let j2 = j1 + lit_mach_id().len() as int;
                    match spec_decode_u64_at(s, j2) {
                        None => None,
                        Some((id, j3)) => {
                            if !match_at(s, j3, lit_mach_online()) {
                                None
                            } else {
                                let j4 = j3 + lit_mach_online().len() as int;
                                match spec_decode_bool_at(s, j4) {
                                    None => None,
                                    Some((online, j5)) => spec_decode_machine_mid(
                                        s,
                                        decode_utf8(dn_bytes),
                                        id,
                                        online,
                                        j5,
                                    ),
                                }
                            }
                        },
                    }
                }
            },
        }
    }
}

/// The tail of `spec_decode_machine_at`: the name, the slots, and the two
/// closing brackets.
pub open spec fn spec_decode_machine_mid(
    s: Seq<u8>,
    display_name: Seq<char>,
    id: u64,
    online: bool,
    j5: int,
) -> Option<(MachineV, int)> {
    if !match_at(s, j5, lit_item_name()) {
        None
    } else {
        let j6 = j5 + lit_item_name().len() as int;
        match string_end(s, j6) {
            None => None,
            Some(j7) => {
                let nm_bytes = unesc(s.subrange(j6, j7));
                if !valid_utf8(nm_bytes) {
                    None
                } else if !match_at(s, j7, lit_mach_slots()) {
                    None
                } else {
                    let j8 = j7 + lit_mach_slots().len() as int;
                    match spec_decode_slots_at(s, j8) {
                        None => None,
                        Some((slots, j9)) => {
                            if !(j9 + 1 < s.len() && s[j9] == 93 && s[j9 + 1] == 125) {
                                None
                            } else {
                                Some(
                                    (
                                        MachineV {
                                            display_name,
                                            id,
                                            is_online: online,
                                            name: decode_utf8(nm_bytes),
                                            slots,
                                        },
                                        j9 + 2,
                                    ),
                                )
                            }
                        },
                    }
                }
            },
        }
    }
}

/// The bytes `{"display_name":"` as a vector.
fn lit_mach_open_vec() -> (v: Vec<u8>)
    ensures
        v@ == lit_mach_open(),
{
    let v: Vec<u8> = vec![
        123u8, 34u8, 100u8, 105u8, 115u8, 112u8, 108u8, 97u8, 121u8, 95u8, 110u8, 97u8, 109u8,
        101u8, 34u8, 58u8, 34u8,
    ];
    proof {
        assert(v@ =~= lit_mach_open());
    }
    v
}

/// The bytes `","id":` as a vector.
fn lit_mach_id_vec() -> (v: Vec<u8>)
    ensures
        v@ == lit_mach_id(),
{
    let v: Vec<u8> = vec![34u8, 44u8, 34u8, 105u8, 100u8, 34u8, 58u8];
    proof {
        assert(v@ =~= lit_mach_id());
    }
    v
}

/// The bytes `,"is_online":` as a vector.
fn lit_mach_online_vec() -> (v: Vec<u8>)
    ensures
        v@ == lit_mach_online(),
{
    let v: Vec<u8> = vec![
        44u8, 34u8, 105u8, 115u8, 95u8, 111u8, 110u8, 108u8, 105u8, 110u8, 101u8, 34u8, 58u8,
    ];
    proof {
        assert(v@ =~= lit_mach_online());
    }
    v
}

/// The bytes `","slots":[` as a vector.
fn lit_mach_slots_vec() -> (v: Vec<u8>)
    ensures
        v@ == lit_mach_slots(),
{
    let v: Vec<u8> = vec![34u8, 44u8, 34u8, 115u8, 108u8, 111u8, 116u8, 115u8, 34u8, 58u8, 91u8];
    proof {
        assert(v@ =~= lit_mach_slots());
    }
    v
}

/// Renders a machine in the wire form.
pub fn encode_machine(machine: &Machine) -> (r: Vec<u8>)
    ensures
        r@ == spec_encode_machine(machine@),
{
    let mut out: Vec<u8> = Vec::new();
    let mut lit = lit_mach_open_vec();
    out.append(&mut lit);
    let dn_bytes = machine.display_name.as_str().as_bytes_vec();
    escape_into(&mut out, dn_bytes.as_slice());
    let mut lit = lit_mach_id_vec();
    out.append(&mut lit);
    let mut idb = encode_u64(machine.id);
    out.append(&mut idb);
    let mut lit = lit_mach_online_vec();
    out.append(&mut lit);
    let mut flag = bool_vec(machine.is_online);
    out.append(&mut flag);
    let mut lit = lit_item_name_vec();
    out.append(&mut lit);
    let nm_bytes = machine.name.as_str().as_bytes_vec();
    escape_into(&mut out, nm_bytes.as_slice());
    let mut lit = lit_mach_slots_vec();
    out.append(&mut lit);
    let mut slots = encode_slots(&machine.slots);
    out.append(&mut slots);
    out.push(93);
    out.push(125);
    proof {
        reveal(spec_encode_machine);
        assert(slots_view(machine.slots@) =~= machine@.slots);
        assert(out@ =~= spec_encode_machine(machine@));
    }
    out
}

/// Reads one machine starting at position `i`; hands back the record and the
/// position right after it.
pub fn decode_machine_at(s: &[u8], i: usize) -> (r: Option<(Machine, usize)>)
    requires
        i <= s@.len(),
    ensures
        match r {
            Some((machine, end)) => spec_decode_machine_at(s@, i as int) == Some(
                (machine@, end as int),
            ) && i < end <= s@.len(),
            None => spec_decode_machine_at(s@, i as int) is None,
        },
{
    let n = s.len();
    let lit = lit_mach_open_vec();
    if !match_bytes(s, i, lit.as_slice()) {
        return None;
    }
    proof {
        assert(i + 17 <= n);
    }
    let j0 = i + 17;
    let j1 = match find_string_end(s, j0) {
        Some(j) => j,
        None => {
            return None;
        },
    };
    let dn_raw = unescape_range(s, j0, j1);
    let display_name = match bytes_to_string(dn_raw) {
        Some(d) => d,
        None => {
            return None;
        },
    };
    let lit = lit_mach_id_vec();
    if !match_bytes(s, j1, lit.as_slice()) {
        return None;
    }
    proof {
        assert(j1 + 7 <= n);
    }
    let j2 = j1 + 7;
    let (id, j3) = match decode_u64_at(s, j2) {
        Some(x) => x,
        None => {
            return None;
        },
    };
    let lit = lit_mach_online_vec();
    if !match_bytes(s, j3, lit.as_slice()) {
        return None;
    }
    proof {
        assert(j3 + 13 <= n);
    }
    let j4 = j3 + 13;
    let (is_online, j5) = match decode_bool_at(s, j4) {
        Some(x) => x,
        None => {
            return None;
        },
    };
    let lit = lit_item_name_vec();
    if !match_bytes(s, j5, lit.as_slice()) {
        return None;
    }
    proof {
        assert(j5 + 9 <= n);
    }
    let j6 = j5 + 9;
    let j7 = match find_string_end(s, j6) {
        Some(j) => j,
        None => {
            return None;
        },
    };
    let nm_raw = unescape_range(s, j6, j7);
    let name = match bytes_to_string(nm_raw) {
        Some(d) => d,
        None => {
            return None;
        },
    };
    let lit = lit_mach_slots_vec();
    if !match_bytes(s, j7, lit.as_slice()) {
        return None;
    }
    proof {
        assert(j7 + 11 <= n);
    }
    let j8 = j7 + 11;
    let (slots, j9) = match decode_slots_at(s, j8) {
        Some(x) => x,
        None => {
            return None;
        },
    };
    if !(j9 + 1 < n && s[j9] == 93 && s[j9 + 1] == 125) {
        return None;
    }
    let machine = Machine { display_name, id, is_online, name, slots };
    proof {
        assert(machine@.slots =~= slots_view(machine.slots@));
    }
    Some((machine, j9 + 2))
}


/// Where each piece of a machine's wire bytes stands.
#[verifier::rlimit(50)]
proof fn lemma_machine_layout(v: MachineV)
    ensures
        ({
            let s = spec_encode_machine(v);
            let c0 = lit_mach_open().len() as int;
            let c1 = c0 + esc(encode_utf8(v.display_name)).len() as int;
            let c2 = c1 + lit_mach_id().len() as int;
            let c3 = c2 + dec_rep(v.id as nat).len() as int;
            let c4 = c3 + lit_mach_online().len() as int;
            let c5 = c4 + bool_rep(v.is_online).len() as int;
            let c6 = c5 + lit_item_name().len() as int;
            let c7 = c6 + esc(encode_utf8(v.name)).len() as int;
            let c8 = c7 + lit_mach_slots().len() as int;
            let c9 = c8 + spec_encode_slots(v.slots).len() as int;
            s.len() == c9 + 2 && s.subrange(0, c0) == lit_mach_open() && s.subrange(c0, c1) == esc(
                encode_utf8(v.display_name),
            ) && s.subrange(c1, c2) == lit_mach_id() && s.subrange(c2, c3) == dec_rep(v.id as nat)
                && s.subrange(c3, c4) == lit_mach_online() && s.subrange(c4, c5) == bool_rep(
                v.is_online,
            ) && s.subrange(c5, c6) == lit_item_name() && s.subrange(c6, c7) == esc(
                encode_utf8(v.name),
            ) && s.subrange(c7, c8) == lit_mach_slots() && s.subrange(c8, c9) == spec_encode_slots(
                v.slots,
            ) && s[c9] == 93 && s[c9 + 1] == 125
        }),
{
    reveal(spec_encode_machine);
    let s = spec_encode_machine(v);
    let l1 = lit_mach_open();
    let dnb = esc(encode_utf8(v.display_name));
    let l2 = lit_mach_id();
    let idb = dec_rep(v.id as nat);
    let l3 = lit_mach_online();
    let ob = bool_rep(v.is_online);
    let l4 = lit_item_name();
    let nmb = esc(encode_utf8(v.name));
    let l5 = lit_mach_slots();
    let sb = spec_encode_slots(v.slots);
    let q1 = l1 + dnb;
    let q2 = q1 + l2;
    let q3 = q2 + idb;
    let q4 = q3 + l3;
    let q5 = q4 + ob;
    let q6 = q5 + l4;
    let q7 = q6 + nmb;
    let q8 = q7 + l5;
    let q9 = q8 + sb;
    let close = seq![93u8, 125u8];
    assert(s == q9 + close);
    lemma_concat_parts(q9, close);
    assert(s[q9.len() as int] == s.subrange(q9.len() as int, s.len() as int)[0]);
    assert(s[q9.len() as int + 1] == s.subrange(q9.len() as int, s.len() as int)[1]);
    lemma_concat_parts(q8, sb);
    lemma_subrange_within_prefix(s, q9, 0, q8.len() as int);
    lemma_subrange_within_prefix(s, q9, q8.len() as int, q9.len() as int);
    lemma_concat_parts(q7, l5);
    lemma_subrange_within_prefix(s, q8, 0, q7.len() as int);
    lemma_subrange_within_prefix(s, q8, q7.len() as int, q8.len() as int);
    lemma_concat_parts(q6, nmb);
    lemma_subrange_within_prefix(s, q7, 0, q6.len() as int);
    lemma_subrange_within_prefix(s, q7, q6.len() as int, q7.len() as int);
    lemma_concat_parts(q5, l4);
    lemma_subrange_within_prefix(s, q6, 0, q5.len() as int);
    lemma_subrange_within_prefix(s, q6, q5.len() as int, q6.len() as int);
    lemma_concat_parts(q4, ob);
    lemma_subrange_within_prefix(s, q5, 0, q4.len() as int);
    lemma_subrange_within_prefix(s, q5, q4.len() as int, q5.len() as int);
    lemma_concat_parts(q3, l3);
    lemma_subrange_within_prefix(s, q4, 0, q3.len() as int);
    lemma_subrange_within_prefix(s, q4, q3.len() as int, q4.len() as int);
    lemma_concat_parts(q2, idb);
    lemma_subrange_within_prefix(s, q3, 0, q2.len() as int);
    lemma_subrange_within_prefix(s, q3, q2.len() as int, q3.len() as int);
    lemma_concat_parts(q1, l2);
    lemma_subrange_within_prefix(s, q2, 0, q1.len() as int);
    lemma_subrange_within_prefix(s, q2, q1.len() as int, q2.len() as int);
    lemma_concat_parts(l1, dnb);
    lemma_subrange_within_prefix(s, q1, 0, l1.len() as int);
    lemma_subrange_within_prefix(s, q1, l1.len() as int, q1.len() as int);
}

/// The display name, the id and the online flag of an embedded machine decode
/// as encoded.
#[verifier::rlimit(50)]
proof fn lemma_machine_decode_at_head(s: Seq<u8>, i: int, v: MachineV)
    requires
        0 <= i,
        i + spec_encode_machine(v).len() <= s.len(),
        s.subrange(i, i + spec_encode_machine(v).len()) == spec_encode_machine(v),
    ensures
        ({
            let c5 = i + lit_mach_open().len() as int + esc(encode_utf8(v.display_name)).len()
                + lit_mach_id().len() + dec_rep(v.id as nat).len() + lit_mach_online().len()
                + bool_rep(v.is_online).len();
            spec_decode_machine_at(s, i) == spec_decode_machine_mid(
                s,
                v.display_name,
                v.id,
                v.is_online,
                c5,
            )
        }),
{
    broadcast use vstd::utf8::encode_utf8_valid_utf8;
    broadcast use vstd::utf8::encode_utf8_decode_utf8;

    let e = spec_encode_machine(v);
    let el = e.len() as int;
    let c0 = lit_mach_open().len() as int;
    let c1 = c0 + esc(encode_utf8(v.display_name)).len() as int;
    let c2 = c1 + lit_mach_id().len() as int;
    let c3 = c2 + dec_rep(v.id as nat).len() as int;
    let c4 = c3 + lit_mach_online().len() as int;
    let c5 = c4 + bool_rep(v.is_online).len() as int;
    lemma_machine_layout(v);
    lemma_nested_subrange(s, i, i + el, 0, c0);
    lemma_nested_subrange(s, i, i + el, c0, c1);
    lemma_nested_subrange(s, i, i + el, c1, c2);
    lemma_nested_subrange(s, i, i + el, c2, c3);
    lemma_nested_subrange(s, i, i + el, c3, c4);
    lemma_nested_subrange(s, i, i + el, c4, c5);
    assert(match_at(s, i, lit_mach_open()));
    assert(s[i + c1] == s.subrange(i + c1, i + c2)[0]);
    assert(s[i + c1] == 34);
    lemma_string_end_esc(s, i + c0, encode_utf8(v.display_name));
    assert(string_end(s, i + c0) == Some(i + c1));
    assert(decode_utf8(unesc(s.subrange(i + c0, i + c1))) == v.display_name);
    assert(match_at(s, i + c1, lit_mach_id()));
    assert(s[i + c3] == s.subrange(i + c3, i + c4)[0]);
    assert(!is_digit_byte(s[i + c3]));
    lemma_u64_decode_at(s, i + c2, v.id);
    assert(match_at(s, i + c3, lit_mach_online()));
    lemma_bool_decode_at(s, i + c4, v.is_online);
}

/// The name, the slots and the closing brackets of an embedded machine decode
/// as encoded.
#[verifier::rlimit(50)]
proof fn lemma_machine_decode_at_mid(s: Seq<u8>, i: int, v: MachineV)
    requires
        0 <= i,
        i + spec_encode_machine(v).len() <= s.len(),
        s.subrange(i, i + spec_encode_machine(v).len()) == spec_encode_machine(v),
    ensures
        ({
            let c5 = i + lit_mach_open().len() as int + esc(encode_utf8(v.display_name)).len()
                + lit_mach_id().len() + dec_rep(v.id as nat).len() + lit_mach_online().len()
                + bool_rep(v.is_online).len();
            spec_decode_machine_mid(s, v.display_name, v.id, v.is_online, c5) == Some(
                (v, i + spec_encode_machine(v).len()),
            )
        }),
{
    broadcast use vstd::utf8::encode_utf8_valid_utf8;
    broadcast use vstd::utf8::encode_utf8_decode_utf8;

    let e = spec_encode_machine(v);
    let el = e.len() as int;
    let c5 = lit_mach_open().len() as int + esc(encode_utf8(v.display_name)).len() as int
        + lit_mach_id().len() as int + dec_rep(v.id as nat).len() as int
        + lit_mach_online().len() as int + bool_rep(v.is_online).len() as int;
    let c6 = c5 + lit_item_name().len() as int;
    let c7 = c6 + esc(encode_utf8(v.name)).len() as int;
    let c8 = c7 + lit_mach_slots().len() as int;
    let c9 = c8 + spec_encode_slots(v.slots).len() as int;
    lemma_machine_layout(v);
    lemma_nested_subrange(s, i, i + el, c5, c6);
    lemma_nested_subrange(s, i, i + el, c6, c7);
    lemma_nested_subrange(s, i, i + el, c7, c8);
    lemma_nested_subrange(s, i, i + el, c8, c9);
    assert(match_at(s, i + c5, lit_item_name()));
    assert(s[i + c7] == s.subrange(i + c7, i + c8)[0]);
    assert(s[i + c7] == 34);
    lemma_string_end_esc(s, i + c6, encode_utf8(v.name));
    assert(string_end(s, i + c6) == Some(i + c7));
    assert(decode_utf8(unesc(s.subrange(i + c6, i + c7))) == v.name);
    assert(match_at(s, i + c7, lit_mach_slots()));
    assert(s[i + c9] == s.subrange(i, i + el)[c9]);
    assert(s[i + c9] == 93);
    assert(s[i + c9 + 1] == s.subrange(i, i + el)[c9 + 1]);
    assert(s[i + c9 + 1] == 125);
    lemma_slots_decode_at(s, i + c8, v.slots);
}

/// Wherever the wire bytes of a machine stand in a larger string, reading
/// from their start finds exactly that record and stops right after them.
pub proof fn lemma_machine_decode_at(s: Seq<u8>, i: int, v: MachineV)
    requires
        0 <= i,
        i + spec_encode_machine(v).len() <= s.len(),
        s.subrange(i, i + spec_encode_machine(v).len()) == spec_encode_machine(v),
    ensures
        spec_decode_machine_at(s, i) == Some((v, i + spec_encode_machine(v).len())),
{
    lemma_machine_decode_at_head(s, i, v);
    lemma_machine_decode_at_mid(s, i, v);
}

/// Law: a machine survives a full encode/decode cycle, its slots and their
/// items with it.
pub proof fn lemma_machine_round_trip(v: MachineV)
    ensures
        ({
            let s = spec_encode_machine(v);
            spec_decode_machine_at(s, 0) == Some((v, s.len() as int))
        }),
{
    let s = spec_encode_machine(v);
    assert(s.subrange(0, s.len() as int) =~= s);
    lemma_machine_decode_at(s, 0, v);
}


// A listing is written as `{"machines":[...],"message":"..."}`, the machines
// separated by commas as the slots are.
/// The views of a vector of machines.
pub open spec fn machines_view(ms: Seq<Machine>) -> Seq<MachineV> {
    ms.map_values(|x: Machine| x@)
}

/// The wire bytes of a sequence of machines, separated by commas.
pub open spec fn spec_encode_machines(vs: Seq<MachineV>) -> Seq<u8>
    decreases vs.len(),
{
    if vs.len() == 0 {
        Seq::empty()
    } else if vs.len() == 1 {
        spec_encode_machine(vs[0])
    } else {
        spec_encode_machine(vs[0]) + seq![44u8] + spec_encode_machines(vs.drop_first())
    }
}

/// Reads comma-separated machines starting at position `i`, up to (not over)
/// the closing bracket; hands back the records and the bracket's position.
pub open spec fn spec_decode_machines_at(s: Seq<u8>, i: int) -> Option<(Seq<MachineV>, int)>
    decreases s.len() - i,
    when 0 <= i <= s.len()
{
    if i < s.len() && s[i] == 93 {
        Some((Seq::empty(), i))
    } else {
        match spec_decode_machine_at(s, i) {
            None => None,
            Some((v, j)) => {
                if !(i < j <= s.len()) {
                    None
                } else if j < s.len() && s[j] == 44 {
                    match spec_decode_machines_at(s, j + 1) {
                        None => None,
                        Some((rest, end)) => if rest.len() == 0 {
                            None
                        } else {
                            Some((seq![v] + rest, end))
                        },
                    }
                } else if j < s.len() && s[j] == 93 {
                    Some((seq![v], j))
                } else {
                    None
                }
            },
        }
    }
}

/// Renders the machines of `machines` from index `from` on, commas between.
fn encode_machines_from(machines: &Vec<Machine>, from: usize) -> (r: Vec<u8>)
    requires
        from <= machines@.len(),
    ensures
        r@ == spec_encode_machines(
            machines_view(machines@).subrange(from as int, machines@.len() as int),
        ),
    decreases machines@.len() - from,
{
    let ghost tailv = machines_view(machines@).subrange(from as int, machines@.len() as int);
    if from >= machines.len() {
        let r: Vec<u8> = Vec::new();
        proof {
            assert(tailv =~= Seq::<MachineV>::empty());
        }
        r
    } else {
        let mut out = encode_machine(&machines[from]);
        proof {
            assert(tailv[0] == machines@[from as int]@);
        }
        if from + 1 < machines.len() {
            out.push(44);
            let mut rest = encode_machines_from(machines, from + 1);
            out.append(&mut rest);
            proof {
                assert(tailv.drop_first() =~= machines_view(machines@).subrange(
                    from as int + 1,
                    machines@.len() as int,
                ));
                assert(out@ =~= spec_encode_machine(tailv[0]) + seq![44u8] + spec_encode_machines(
                    tailv.drop_first(),
                ));
            }
        } else {
            proof {
                assert(tailv.len() == 1);
            }
        }
        out
    }
}

/// Reads comma-separated machines starting at position `i`; hands back the
/// records and the position of the closing bracket.
pub fn decode_machines_at(s: &[u8], i: usize) -> (r: Option<(Vec<Machine>, usize)>)
    requires
        i <= s@.len(),
    ensures
        match r {
            Some((machines, end)) => spec_decode_machines_at(s@, i as int) == Some(
                (machines_view(machines@), end as int),
            ) && i <= end < s@.len(),
            None => spec_decode_machines_at(s@, i as int) is None,
        },
    decreases s@.len() - i,
{
    let n = s.len();
    if i < n && s[i] == 93 {
        let out: Vec<Machine> = Vec::new();
        proof {
            assert(machines_view(out@) =~= Seq::<MachineV>::empty());
        }
        return Some((out, i));
    }
    let (machine, j) = match decode_machine_at(s, i) {
        Some(x) => x,
        None => {
            return None;
        },
    };
    if j < n && s[j] == 44 {
        match decode_machines_at(s, j + 1) {
            Some((rest, end)) => {
                if rest.len() == 0 {
                    return None;
                }
                let mut out: Vec<Machine> = Vec::new();
                out.push(machine);
                let ghost restv = machines_view(rest@);
                let mut rest = rest;
                out.append(&mut rest);
                proof {
                    assert(machines_view(out@) =~= seq![out@[0]@] + restv);
                }
                Some((out, end))
            },
            None => None,
        }
    } else if j < n && s[j] == 93 {
        let mut out: Vec<Machine> = Vec::new();
        out.push(machine);
        proof {
            assert(machines_view(out@) =~= seq![out@[0]@]);
        }
        Some((out, j))
    } else {
        None
    }
}

/// Wherever the wire bytes of a machine sequence stand, followed by the
/// closing bracket, reading from their start finds exactly those records and
/// stops at the bracket.
#[verifier::rlimit(50)]
#[verifier::spinoff_prover]
pub proof fn lemma_machines_decode_at(s: Seq<u8>, i: int, vs: Seq<MachineV>)
    requires
        0 <= i,
        i + spec_encode_machines(vs).len() < s.len(),
        s.subrange(i, i + spec_encode_machines(vs).len()) == spec_encode_machines(vs),
        s[i + spec_encode_machines(vs).len()] == 93,
    ensures
        spec_decode_machines_at(s, i) == Some((vs, i + spec_encode_machines(vs).len())),
    decreases vs.len(),
{
    let enc = spec_encode_machines(vs);
    if vs.len() == 0 {
        assert(s[i] == 93);
    } else if vs.len() == 1 {
        lemma_machine_decode_at(s, i, vs[0]);
        assert(seq![vs[0]] =~= vs);
    } else {
        let enc0 = spec_encode_machine(vs[0]);
        let l0 = enc0.len() as int;
        let rest = vs.drop_first();
        let enc_rest = spec_encode_machines(rest);
        let p = enc0 + seq![44u8];
        assert(enc == p + enc_rest);
        lemma_concat_parts(p, enc_rest);
        lemma_concat_parts(enc0, seq![44u8]);
        // the first machine's bytes
        lemma_nested_subrange(s, i, i + enc.len() as int, 0, l0);
        lemma_nested_subrange(enc, 0, p.len() as int, 0, l0);
        assert(s.subrange(i, i + l0) == enc0);
        lemma_machine_decode_at(s, i, vs[0]);
        // the comma
        assert(s[i + l0] == s.subrange(i, i + enc.len() as int)[l0]);
        assert(enc[l0] == enc.subrange(0, p.len() as int)[l0]);
        assert(p[l0] == p.subrange(l0, p.len() as int)[0]);
        assert(s[i + l0] == 44);
        // the remaining machines
        lemma_nested_subrange(s, i, i + enc.len() as int, l0 + 1, enc.len() as int);
        assert(s.subrange(i + l0 + 1, i + enc.len() as int) == enc_rest);
        lemma_machines_decode_at(s, i + l0 + 1, rest);
        assert(seq![vs[0]] + rest =~= vs);
    }
}

/// The bytes `{"machines":[` that open a listing.
pub open spec fn lit_list_open() -> Seq<u8> {
    seq![123u8, 34u8, 109u8, 97u8, 99u8, 104u8, 105u8, 110u8, 101u8, 115u8, 34u8, 58u8, 91u8]
}

/// The bytes `],"message":"` between the machines and the message.
pub open spec fn lit_list_message() -> Seq<u8> {
    seq![93u8, 44u8, 34u8, 109u8, 101u8, 115u8, 115u8, 97u8, 103u8, 101u8, 34u8, 58u8, 34u8]
}

/// The wire bytes of a full listing.
#[verifier::opaque]
pub open spec fn spec_encode_list(v: DrinkListV) -> Seq<u8> {
    lit_list_open() + spec_encode_machines(v.machines) + lit_list_message() + esc(
        encode_utf8(v.message),
    ) + seq![34u8, 125u8]
}

/// The decoder of the wire form of a listing: the whole string must be one
/// listing, and that record is the result.
pub open spec fn spec_decode_list(s: Seq<u8>) -> Option<DrinkListV> {
    if !match_at(s, 0, lit_list_open()) {
        None
    } else {
        let j0 = lit_list_open().len() as int;
        match spec_decode_machines_at(s, j0) {
            None => None,
            Some((machines, j1)) => {
                if !match_at(s, j1, lit_list_message()) {
                    None
                } else {
                    let j2 = j1 + lit_list_message().len() as int;
                    match string_end(s, j2) {
                        None => None,
                        Some(j3) => {
                            let msg_bytes = unesc(s.subrange(j2, j3));
                            if !valid_utf8(msg_bytes) {
                                None
                            } else if !(j3 + 2 == s.len() && s[j3 + 1] == 125) {
                                None
                            } else {
                                Some(DrinkListV { machines, message: decode_utf8(msg_bytes) })
                            }
                        },
                    }
                }
            },
        }
    }
}

/// The bytes `{"machines":[` as a vector.
fn lit_list_open_vec() -> (v: Vec<u8>)
    ensures
        v@ == lit_list_open(),
{
    let v: Vec<u8> = vec![
        123u8, 34u8, 109u8, 97u8, 99u8, 104u8, 105u8, 110u8, 101u8, 115u8, 34u8, 58u8, 91u8,
    ];
    proof {
        assert(v@ =~= lit_list_open());
    }
    v
}

/// The bytes `],"message":"` as a vector.
fn lit_list_message_vec() -> (v: Vec<u8>)
    ensures
        v@ == lit_list_message(),
{
    let v: Vec<u8> = vec![
        93u8, 44u8, 34u8, 109u8, 101u8, 115u8, 115u8, 97u8, 103u8, 101u8, 34u8, 58u8, 34u8,
    ];
    proof {
        assert(v@ =~= lit_list_message());
    }
    v
}

/// Renders a full listing in the wire form.
pub fn encode_drink_list(list: &DrinkList) -> (r: Vec<u8>)
    ensures
        r@ == spec_encode_list(list@),
{
    let mut out: Vec<u8> = Vec::new();
    let mut lit = lit_list_open_vec();
    out.append(&mut lit);
    let mut machines = encode_machines_from(&list.machines, 0);
    proof {
        assert(machines_view(list.machines@).subrange(0, list.machines@.len() as int)
            =~= machines_view(list.machines@));
        assert(machines_view(list.machines@) =~= list@.machines);
    }
    out.append(&mut machines);
    let mut lit = lit_list_message_vec();
    out.append(&mut lit);
    let msg_bytes = list.message.as_str().as_bytes_vec();
    escape_into(&mut out, msg_bytes.as_slice());
    out.push(34);
    out.push(125);
    proof {
        reveal(spec_encode_list);
        assert(out@ =~= spec_encode_list(list@));
    }
    out
}

/// Reads a full listing from the wire form; `None` on any other bytes.
pub fn decode_drink_list(s: &[u8]) -> (r: Option<DrinkList>)
    ensures
        match r {
            Some(list) => spec_decode_list(s@) == Some(list@),
            None => spec_decode_list(s@) is None,
        },
{
    let n = s.len();
    let lit = lit_list_open_vec();
    if !match_bytes(s, 0, lit.as_slice()) {
        return None;
    }
    let j0: usize = 13;
    let (machines, j1) = match decode_machines_at(s, j0) {
        Some(x) => x,
        None => {
            return None;
        },
    };
    let lit = lit_list_message_vec();
    if !match_bytes(s, j1, lit.as_slice()) {
        return None;
    }
    proof {
        assert(j1 + 13 <= n);
    }
    let j2 = j1 + 13;
    let j3 = match find_string_end(s, j2) {
        Some(j) => j,
        None => {
            return None;
        },
    };
    let msg_raw = unescape_range(s, j2, j3);
    let message = match bytes_to_string(msg_raw) {
        Some(m) => m,
        None => {
            return None;
        },
    };
    if n - j3 != 2 {
        return None;
    }
    if s[j3 + 1] != 125 {
        return None;
    }
    let list = DrinkList { machines, message };
    proof {
        assert(list@.machines =~= machines_view(list.machines@));
    }
    Some(list)
}

/// Where each piece of a listing's wire bytes stands.
#[verifier::rlimit(50)]
proof fn lemma_list_layout(v: DrinkListV)
    ensures
        ({
            let s = spec_encode_list(v);
            let d0 = lit_list_open().len() as int;
            let d1 = d0 + spec_encode_machines(v.machines).len() as int;
            let d2 = d1 + lit_list_message().len() as int;
            let d3 = d2 + esc(encode_utf8(v.message)).len() as int;
            s.len() == d3 + 2 && s.subrange(0, d0) == lit_list_open() && s.subrange(d0, d1)
                == spec_encode_machines(v.machines) && s.subrange(d1, d2) == lit_list_message()
                && s.subrange(d2, d3) == esc(encode_utf8(v.message)) && s[d3] == 34 && s[d3 + 1]
                == 125
        }),
{
    reveal(spec_encode_list);
    let s = spec_encode_list(v);
    let l1 = lit_list_open();
    let mb = spec_encode_machines(v.machines);
    let l2 = lit_list_message();
    let gb = esc(encode_utf8(v.message));
    let q1 = l1 + mb;
    let q2 = q1 + l2;
    let q3 = q2 + gb;
    let close = seq![34u8, 125u8];
    assert(s == q3 + close);
    lemma_concat_parts(q3, close);
    assert(s[q3.len() as int] == s.subrange(q3.len() as int, s.len() as int)[0]);
    assert(s[q3.len() as int + 1] == s.subrange(q3.len() as int, s.len() as int)[1]);
    lemma_concat_parts(q2, gb);
    lemma_subrange_within_prefix(s, q3, 0, q2.len() as int);
    lemma_subrange_within_prefix(s, q3, q2.len() as int, q3.len() as int);
    lemma_concat_parts(q1, l2);
    lemma_subrange_within_prefix(s, q2, 0, q1.len() as int);
    lemma_subrange_within_prefix(s, q2, q1.len() as int, q2.len() as int);
    lemma_concat_parts(l1, mb);
    lemma_subrange_within_prefix(s, q1, 0, l1.len() as int);
    lemma_subrange_within_prefix(s, q1, l1.len() as int, q1.len() as int);
}

/// Law: a full machine listing survives an encode/decode cycle; every machine
/// comes back with its slots, each slot with its item's name and price.
#[verifier::rlimit(50)]
pub proof fn lemma_listing_round_trip(v: DrinkListV)
    ensures
        spec_decode_list(spec_encode_list(v)) == Some(v),
{
    broadcast use vstd::utf8::encode_utf8_valid_utf8;
    broadcast use vstd::utf8::encode_utf8_decode_utf8;

    let s = spec_encode_list(v);
    let d0 = lit_list_open().len() as int;
    let d1 = d0 + spec_encode_machines(v.machines).len() as int;
    let d2 = d1 + lit_list_message().len() as int;
    let d3 = d2 + esc(encode_utf8(v.message)).len() as int;
    lemma_list_layout(v);
    assert(match_at(s, 0, lit_list_open()));
    assert(s[d1] == s.subrange(d1, d2)[0]);
    assert(s[d1] == 93);
    lemma_machines_decode_at(s, d0, v.machines);
    assert(match_at(s, d1, lit_list_message()));
    lemma_string_end_esc(s, d2, encode_utf8(v.message));
    assert(string_end(s, d2) == Some(d3));
    assert(decode_utf8(unesc(s.subrange(d2, d3))) == v.message);
}

} // verus!
