//! What the bytes of a state look like, byte by byte, and how any bytes are
//! read.
use crate::state::{
    decode_entries, decode_state, encode_state, entries_bytes, entry_bytes, ParseState, StateView,
};
use vstd::prelude::*;
use vstd::utf8::{decode_utf8, encode_utf8, valid_utf8};

verus! {

/// The number as two bytes: the remainder by 256, then the quotient.
pub open spec fn low_high(n: int) -> Seq<u8> {
    seq![(n % 256) as u8, (n / 256) as u8]
}

/// The smaller of the number and 65535.
pub open spec fn up_to_limit(n: int) -> int {
    if n <= 65535 {
        n
    } else {
        65535
    }
}

/// The byte of the flag.
pub open spec fn flag_byte(open: bool) -> u8 {
    if open {
        1
    } else {
        0
    }
}

/// With nothing open the bytes are two zeros and the flag.
pub proof fn bytes_of_no_items(open: bool)
    ensures
        encode_state(StateView { open_items: seq![], open_message: open }) == seq![
            0u8,
            0u8,
            flag_byte(open),
        ],
{
    let none = Seq::<Seq<char>>::empty();
    assert(none.take(0) =~= none);
    assert(encode_state(StateView { open_items: none, open_message: open }) =~= seq![
        0u8,
        0u8,
        flag_byte(open),
    ]);
}

proof fn lemma_entries_push(ids: Seq<Seq<char>>, id: Seq<char>)
    ensures
        entries_bytes(ids.push(id)) == entries_bytes(ids) + entry_bytes(id),
    decreases ids.len(),
{
    let longer = ids.push(id);
    if ids.len() == 0 {
        assert(longer.drop_first() =~= seq![]);
        assert(entries_bytes(Seq::<Seq<char>>::empty()) =~= seq![]);
        assert(entries_bytes(longer) =~= entries_bytes(ids) + entry_bytes(id));
    } else {
        lemma_entries_push(ids.drop_first(), id);
        assert(longer.drop_first() =~= ids.drop_first().push(id));
        assert(entries_bytes(longer) =~= entries_bytes(ids) + entry_bytes(id));
    }
}

/// One more open item adds one to the count, and puts its length and its UTF-8
/// text between the other entries and the flag; a text of more than 65535 bytes
/// is cut. Where 65535 items are open, one more is left out.
pub proof fn bytes_of_one_more_item(ids: Seq<Seq<char>>, id: Seq<char>, open: bool)
    ensures
        ({
            let before = encode_state(StateView { open_items: ids, open_message: open });
            let after = encode_state(StateView { open_items: ids.push(id), open_message: open });
            let n = ids.len() as int;
            let text = encode_utf8(id);
            let k = up_to_limit(text.len() as int);
            &&& before.len() >= 3
            &&& n < 65535 ==> after == low_high(n + 1) + before.subrange(2, before.len() - 1)
                + low_high(k) + text.take(k) + seq![flag_byte(open)]
            &&& n >= 65535 ==> after == before
        }),
{
    let before = encode_state(StateView { open_items: ids, open_message: open });
    let after = encode_state(StateView { open_items: ids.push(id), open_message: open });
    let n = ids.len() as int;
    let text = encode_utf8(id);
    let k = up_to_limit(text.len() as int);
    if n < 65535 {
        lemma_entries_push(ids, id);
        assert(ids.take(n) =~= ids);
        assert(ids.push(id).take(n + 1) =~= ids.push(id));
        assert(before.subrange(2, before.len() - 1) =~= entries_bytes(ids));
        assert(after =~= low_high(n + 1) + before.subrange(2, before.len() - 1) + low_high(k)
            + text.take(k) + seq![flag_byte(open)]);
    } else {
        assert(ids.push(id).take(65535) =~= ids.take(65535));
    }
}

/// The flag that the bytes start with: any other byte than zero sets it, and
/// without a byte it is not set.
pub open spec fn flag_of(rest: Seq<u8>) -> bool {
    rest.len() > 0 && rest[0] != 0
}

proof fn lemma_low_high(n: int, more: Seq<u8>)
    requires
        0 <= n <= 65535,
    ensures
        (low_high(n) + more).len() >= 2,
        (low_high(n) + more)[0] as int + 256 * (low_high(n) + more)[1] as int == n,
        (low_high(n) + more).skip(2) == more,
{
    assert((low_high(n) + more).skip(2) =~= more);
    assert(n % 256 + 256 * (n / 256) == n);
}

/// Fewer than two bytes carry no state, and with a count of zero, or too few
/// bytes for an entry, there are no items and the flag comes next.
pub proof fn bytes_without_entries(b: Seq<u8>, count: int, n: int, rest: Seq<u8>)
    requires
        0 <= count <= 65535,
        0 <= n <= 65535,
    ensures
        b.len() < 2 ==> decode_state(b) == (StateView { open_items: seq![], open_message: false }),
        count == 0 || rest.len() < 2 ==> decode_state(low_high(count) + rest) == (StateView {
            open_items: seq![],
            open_message: flag_of(rest),
        }),
        count > 0 && n > rest.len() ==> decode_state(low_high(count) + low_high(n) + rest) == (
        StateView { open_items: seq![], open_message: flag_of(rest) }),
{
    lemma_low_high(count, rest);
    lemma_low_high(n, rest);
    lemma_low_high(count, low_high(n) + rest);
    assert(low_high(count) + low_high(n) + rest =~= low_high(count) + (low_high(n) + rest));
    reveal_with_fuel(decode_entries, 2);
}

/// An entry of valid UTF-8 is read as its text, before the items of what follows
/// it; an entry of other bytes is passed over.
pub proof fn bytes_with_an_entry(count: int, text: Seq<u8>, rest: Seq<u8>)
    requires
        0 < count <= 65535,
        text.len() <= 65535,
    ensures
        ({
            let all = decode_state(
                low_high(count) + low_high(text.len() as int) + text + rest,
            );
            let later = decode_state(low_high(count - 1) + rest);
            &&& all.open_message == later.open_message
            &&& valid_utf8(text) ==> all.open_items == seq![decode_utf8(text)] + later.open_items
            &&& !valid_utf8(text) ==> all.open_items == later.open_items
        }),
{
    let n = text.len() as int;
    let tail = low_high(n) + (text + rest);
    assert(low_high(count) + low_high(n) + text + rest =~= low_high(count) + tail);
    lemma_low_high(count, tail);
    lemma_low_high(n, text + rest);
    lemma_low_high(count - 1, rest);
    assert((text + rest).take(n) =~= text);
    assert((text + rest).skip(n) =~= rest);
}

/// A new item is opened behind all the others, and an item that is closed leaves
/// the others in their order.
pub proof fn items_keep_their_order(
    front: Seq<Seq<char>>,
    id: Seq<char>,
    back: Seq<Seq<char>>,
    open: bool,
)
    requires
        !front.contains(id),
    ensures
        ({
            let s = StateView { open_items: front + seq![id] + back, open_message: open };
            &&& s.contains(id)
            &&& s.insert(id) == s
            &&& s.remove(id) == (StateView { open_items: front + back, open_message: open })
        }),
        ({
            let s = StateView { open_items: front, open_message: open };
            &&& !s.contains(id)
            &&& s.insert(id) == (StateView { open_items: front.push(id), open_message: open })
            &&& s.remove(id) == s
        }),
{
    let all = front + seq![id] + back;
    let at = front.len() as int;
    assert(all[at] == id);
    all.index_of_first_ensures(id);
    front.index_of_first_ensures(id);
    let found = all.index_of_first(id)->0;
    if found < at {
        assert(front[found] == id);
    } else if found > at {
        assert(all[at] != id);
    }
    assert(all.remove(at) =~= front + back);
}

/// The contents of a state are the texts of its items, in their order, and its
/// flag.
pub proof fn contents_are_the_items(ps: ParseState)
    ensures
        ps@.open_items.len() == ps.open_items.len(),
        forall|i: int|
            0 <= i < ps.open_items.len() ==> #[trigger] ps@.open_items[i] == ps.open_items[i]@,
        ps@.open_message == ps.open_message,
{
}

} // verus!
