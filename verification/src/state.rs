//! What the parser remembers between two lines, and the bytes that carry it.
//!
//! The bytes are a count of entries, then each entry as its length and its
//! UTF-8 text, then one byte that tells whether a message is open. Counts and
//! lengths are two bytes, the lower one first.
use crate::outside::str_from_utf8;
use crate::text::same_text;
use vstd::prelude::*;
use vstd::slice::slice_subrange;
use vstd::utf8::{decode_utf8, encode_utf8, valid_utf8};

verus! {

/// The largest number that a count or a length can hold.
pub const LIMIT: usize = 0xFFFF;

/// The ids of the items that have been opened and not closed, in the order of
/// their opening, and whether a message is open.
pub struct ParseState {
    pub open_items: Vec<String>,
    pub open_message: bool,
}

/// The contents of a [`ParseState`].
pub struct StateView {
    pub open_items: Seq<Seq<char>>,
    pub open_message: bool,
}

impl View for ParseState {
    type V = StateView;

    open spec fn view(&self) -> StateView {
        StateView { open_items: self.open_items.deep_view(), open_message: self.open_message }
    }
}

impl StateView {
    /// Nothing is open.
    pub open spec fn closed() -> StateView {
        StateView { open_items: seq![], open_message: false }
    }

    /// Whether the item is open.
    pub open spec fn contains(self, id: Seq<char>) -> bool {
        self.open_items.contains(id)
    }

    /// The state with the item open.
    pub open spec fn insert(self, id: Seq<char>) -> StateView {
        if self.contains(id) {
            self
        } else {
            StateView { open_items: self.open_items.push(id), ..self }
        }
    }

    /// The state without the first entry for the item.
    pub open spec fn remove(self, id: Seq<char>) -> StateView {
        StateView { open_items: self.open_items.remove_value(id), ..self }
    }

    /// The state with a message open or not.
    pub open spec fn with_message(self, open: bool) -> StateView {
        StateView { open_message: open, ..self }
    }

    /// Whether the bytes can carry the state whole: neither the number of
    /// entries nor the length of any of them goes beyond [`LIMIT`].
    pub open spec fn fits(self) -> bool {
        &&& self.open_items.len() <= LIMIT
        &&& forall|i: int|
            0 <= i < self.open_items.len() ==> encode_utf8(#[trigger] self.open_items[i]).len()
                <= LIMIT
    }
}

/// The number, or the largest one that two bytes hold where it is beyond that.
pub open spec fn capped(n: nat) -> nat {
    if n <= LIMIT {
        n
    } else {
        LIMIT as nat
    }
}

/// The number as two bytes, the lower one first.
pub open spec fn two_bytes(n: nat) -> Seq<u8> {
    seq![(n % 256) as u8, (n / 256) as u8]
}

/// The number that the first two bytes of `b` hold.
pub open spec fn from_two_bytes(b: Seq<u8>) -> nat {
    b[0] as nat + 256 * b[1] as nat
}

/// The bytes of one entry: its length, then its text, cut where it is too long.
pub open spec fn entry_bytes(id: Seq<char>) -> Seq<u8> {
    let text = encode_utf8(id);
    two_bytes(capped(text.len())) + text.take(capped(text.len()) as int)
}

/// The bytes of the entries, one after another.
pub open spec fn entries_bytes(ids: Seq<Seq<char>>) -> Seq<u8>
    decreases ids.len(),
{
    if ids.len() == 0 {
        seq![]
    } else {
        entry_bytes(ids[0]) + entries_bytes(ids.drop_first())
    }
}

/// The bytes of the flag.
pub open spec fn flag_bytes(open: bool) -> Seq<u8> {
    seq![
        if open {
            1u8
        } else {
            0u8
        },
    ]
}

/// The bytes that carry the state. Entries beyond the largest count are left
/// out.
pub open spec fn encode_state(s: StateView) -> Seq<u8> {
    let n = capped(s.open_items.len());
    two_bytes(n) + entries_bytes(s.open_items.take(n as int)) + flag_bytes(s.open_message)
}

/// At most `count` entries read from the start of `b`, and the bytes behind them.
/// Reading stops where the bytes do not hold a whole entry; an entry that is not
/// valid UTF-8 is passed over.
pub open spec fn decode_entries(b: Seq<u8>, count: nat) -> (Seq<Seq<char>>, Seq<u8>)
    decreases count,
{
    if count == 0 || b.len() < 2 {
        (seq![], b)
    } else {
        let n = from_two_bytes(b);
        let rest = b.skip(2);
        if n > rest.len() {
            (seq![], rest)
        } else {
            let (ids, behind) = decode_entries(rest.skip(n as int), (count - 1) as nat);
            let text = rest.take(n as int);
            if valid_utf8(text) {
                (seq![decode_utf8(text)] + ids, behind)
            } else {
                (ids, behind)
            }
        }
    }
}

/// The state that the bytes carry. The flag is the byte behind the entries, and
/// is not set where there is none.
pub open spec fn decode_state(b: Seq<u8>) -> StateView {
    if b.len() < 2 {
        StateView::closed()
    } else {
        let (ids, behind) = decode_entries(b.skip(2), from_two_bytes(b));
        StateView { open_items: ids, open_message: behind.len() > 0 && behind[0] != 0 }
    }
}

/// Appends a number as two bytes, the lower one first.
fn push_number(out: &mut Vec<u8>, n: usize)
    requires
        n <= LIMIT,
    ensures
        final(out)@ == old(out)@ + two_bytes(n as nat),
{
    out.push((n % 256) as u8);
    out.push((n / 256) as u8);
    assert(out@ =~= old(out)@ + two_bytes(n as nat));
}

/// Reads the number that two bytes hold, the lower one first.
fn number_at(b: &[u8], at: usize) -> (n: usize)
    requires
        at + 2 <= b@.len(),
    ensures
        n == from_two_bytes(b@.skip(at as int)),
        n <= LIMIT,
{
    assert(at + 2 <= b.len());
    b[at] as usize + 256 * (b[at + 1] as usize)
}

/// Appends the first `n` bytes.
fn push_bytes(out: &mut Vec<u8>, bytes: &[u8], n: usize)
    requires
        n <= bytes@.len(),
    ensures
        final(out)@ == old(out)@ + bytes@.take(n as int),
{
    let mut i: usize = 0;
    let ghost before = out@;
    assert(before + bytes@.take(0) =~= before);
    while i < n
        invariant
            i <= n <= bytes@.len(),
            out@ == before + bytes@.take(i as int),
        decreases n - i,
    {
        out.push(bytes[i]);
        i += 1;
        assert(out@ =~= before + bytes@.take(i as int));
    }
}

/// The number, or the largest one that two bytes hold where it is beyond that.
fn cap(n: usize) -> (out: usize)
    ensures
        out == capped(n as nat),
        out <= LIMIT,
        out <= n,
{
    if n <= LIMIT {
        n
    } else {
        LIMIT
    }
}

impl ParseState {
    /// Reads the state that the bytes carry.
    pub fn decode(state: &[u8]) -> (out: ParseState)
        ensures
            out@ == decode_state(state@),
    {
        let mut items: Vec<String> = Vec::new();
        let len: usize = state.len();
        if len < 2 {
            assert(items.deep_view() =~= seq![]);
            return ParseState { open_items: items, open_message: false };
        }
        assert(state@.skip(0) =~= state@);
        let count: usize = number_at(state, 0);
        let ghost all = decode_entries(state@.skip(2), count as nat);
        let mut cur: usize = 2;
        let mut left: usize = count;
        assert(items.deep_view() + all.0 =~= all.0);
        while left > 0 && len - cur >= 2
            invariant_except_break
                cur <= len == state@.len(),
                items.deep_view() + decode_entries(state@.skip(cur as int), left as nat).0 == all.0,
                decode_entries(state@.skip(cur as int), left as nat).1 == all.1,
            ensures
                cur <= len == state@.len(),
                items.deep_view() == all.0,
                state@.skip(cur as int) == all.1,
            decreases left,
        {
            let ghost rest = state@.skip(cur as int);
            let ghost before = items.deep_view();
            let n: usize = number_at(state, cur);
            cur += 2;
            assert(rest.skip(2) =~= state@.skip(cur as int));
            if n > len - cur {
                assert(items.deep_view() + Seq::<Seq<char>>::empty() =~= items.deep_view());
                break;
            }
            let text: &[u8] = slice_subrange(state, cur, cur + n);
            let ghost behind = decode_entries(state@.skip(cur + n), (left - 1) as nat);
            proof {
                assert(text@ =~= rest.skip(2).take(n as int));
                assert(rest.skip(2).skip(n as int) =~= state@.skip(cur + n));
            }
            match str_from_utf8(text) {
                Some(id) => {
                    items.push(id.to_owned());
                    proof {
                        assert(items.deep_view() =~= before.push(id@));
                        assert(before + (seq![id@] + behind.0) =~= before.push(id@) + behind.0);
                    }
                },
                None => {},
            }
            cur += n;
            left -= 1;
        }
        let open: bool = cur < len && state[cur] != 0;
        ParseState { open_items: items, open_message: open }
    }

    /// Writes the bytes that carry the state.
    pub fn encode(&self) -> (out: Vec<u8>)
        ensures
            out@ == encode_state(self@),
    {
        let count: usize = cap(self.open_items.len());
        let mut out: Vec<u8> = Vec::new();
        push_number(&mut out, count);
        let ghost kept = self.open_items.deep_view().take(count as int);
        let mut i: usize = 0;
        proof {
            assert(out@ =~= two_bytes(count as nat));
            assert(kept.skip(0) =~= kept);
        }
        while i < count
            invariant
                i <= count == kept.len(),
                count <= self.open_items@.len(),
                kept == self.open_items.deep_view().take(count as int),
                out@ + entries_bytes(kept.skip(i as int)) == two_bytes(count as nat)
                    + entries_bytes(kept),
            decreases count - i,
        {
            let ghost before = out@;
            let bytes: &[u8] = self.open_items[i].as_str().as_bytes();
            let n: usize = cap(bytes.len());
            push_number(&mut out, n);
            push_bytes(&mut out, bytes, n);
            proof {
                let rest = kept.skip(i as int);
                assert(rest[0] == self.open_items@[i as int]@);
                assert(rest.drop_first() =~= kept.skip(i + 1));
                assert(out@ =~= before + entry_bytes(rest[0]));
                assert(out@ + entries_bytes(kept.skip(i + 1)) =~= before + entries_bytes(rest));
            }
            i += 1;
        }
        proof {
            assert(kept.skip(count as int) =~= seq![]);
            assert(out@ =~= two_bytes(count as nat) + entries_bytes(kept));
        }
        out.push(
            if self.open_message {
                1
            } else {
                0
            },
        );
        assert(out@ =~= encode_state(self@));
        out
    }

    /// The place of the first entry for the item.
    fn position(&self, id: &str) -> (place: Option<usize>)
        ensures
            match place {
                Some(n) => n < self.open_items@.len() && self@.open_items.index_of_first(id@)
                    == Some(n as int),
                None => !self@.contains(id@),
            },
    {
        let ghost ids = self.open_items.deep_view();
        let mut i: usize = 0;
        while i < self.open_items.len()
            invariant
                i <= self.open_items@.len(),
                ids == self.open_items.deep_view(),
                forall|j: int| 0 <= j < i ==> ids[j] != id@,
            decreases self.open_items@.len() - i,
        {
            if same_text(self.open_items[i].as_str(), id) {
                proof {
                    assert(ids[i as int] == id@);
                    ids.index_of_first_ensures(id@);
                }
                return Some(i);
            }
            i += 1;
        }
        None
    }

    /// Tells whether the item is open.
    pub fn contains(&self, id: &str) -> (b: bool)
        ensures
            b == self@.contains(id@),
    {
        match self.position(id) {
            Some(n) => {
                proof {
                    self@.open_items.index_of_first_ensures(id@);
                }
                true
            },
            None => false,
        }
    }

    /// Opens the item, where it is not open.
    pub fn insert(&mut self, id: String)
        ensures
            final(self)@ == old(self)@.insert(id@),
    {
        if !self.contains(id.as_str()) {
            let ghost before = self.open_items.deep_view();
            let ghost text = id@;
            self.open_items.push(id);
            assert(self.open_items.deep_view() =~= before.push(text));
        }
    }

    /// Closes the item, and tells whether it was open.
    pub fn remove(&mut self, id: &str) -> (b: bool)
        ensures
            b == old(self)@.contains(id@),
            final(self)@ == old(self)@.remove(id@),
    {
        let ghost before = self.open_items.deep_view();
        proof {
            before.index_of_first_ensures(id@);
        }
        match self.position(id) {
            Some(n) => {
                self.open_items.remove(n);
                assert(self.open_items.deep_view() =~= before.remove(n as int));
                true
            },
            None => false,
        }
    }
}

/// Two bytes give back the number that they were made of.
proof fn lemma_two_bytes(n: nat, more: Seq<u8>)
    requires
        n <= LIMIT,
    ensures
        from_two_bytes(two_bytes(n) + more) == n,
        (two_bytes(n) + more).skip(2) == more,
{
    assert((two_bytes(n) + more).skip(2) =~= more);
    assert(n % 256 + 256 * (n / 256) == n);
}

/// One entry is read back as it was written, and what stands behind it is read
/// as if it stood alone.
#[verifier::rlimit(40)]
proof fn lemma_entry_round_trip(id: Seq<char>, behind: Seq<u8>, count: nat)
    requires
        encode_utf8(id).len() <= LIMIT,
    ensures
        decode_entries(entry_bytes(id) + behind, count + 1) == (
            seq![id] + decode_entries(behind, count).0,
            decode_entries(behind, count).1,
        ),
{
    let text = encode_utf8(id);
    let b = entry_bytes(id) + behind;
    assert(text.take(text.len() as int) =~= text);
    assert(b =~= two_bytes(text.len()) + (text + behind));
    lemma_two_bytes(text.len(), text + behind);
    assert((text + behind).take(text.len() as int) =~= text);
    assert((text + behind).skip(text.len() as int) =~= behind);
    assert(valid_utf8(text)) by {
        vstd::utf8::encode_utf8_valid_utf8(id);
    }
    assert(decode_utf8(text) == id) by {
        vstd::utf8::encode_utf8_decode_utf8(id);
    }
}

/// The entries read back are the ones that were written, and what stands behind
/// them is left.
proof fn lemma_entries_round_trip(ids: Seq<Seq<char>>, more: Seq<u8>)
    requires
        forall|i: int| 0 <= i < ids.len() ==> encode_utf8(#[trigger] ids[i]).len() <= LIMIT,
    ensures
        decode_entries(entries_bytes(ids) + more, ids.len()) == (ids, more),
    decreases ids.len(),
{
    if ids.len() == 0 {
        assert(entries_bytes(ids) + more =~= more);
        assert(ids =~= seq![]);
    } else {
        let later = ids.drop_first();
        let behind = entries_bytes(later) + more;
        assert forall|i: int| 0 <= i < later.len() implies encode_utf8(#[trigger] later[i]).len()
            <= LIMIT by {
            assert(later[i] == ids[i + 1]);
        }
        lemma_entries_round_trip(later, more);
        lemma_entry_round_trip(ids[0], behind, later.len());
        assert(entries_bytes(ids) + more =~= entry_bytes(ids[0]) + behind);
        assert(seq![ids[0]] + later =~= ids);
    }
}

/// Decoding the bytes of a state gives the state back, as long as the bytes can
/// carry it whole.
pub proof fn decode_undoes_encode(s: StateView)
    requires
        s.fits(),
    ensures
        decode_state(encode_state(s)) == s,
{
    let n = s.open_items.len();
    let flag = flag_bytes(s.open_message);
    let entries = entries_bytes(s.open_items);
    assert(s.open_items.take(n as int) =~= s.open_items);
    assert(encode_state(s) =~= two_bytes(n) + (entries + flag));
    lemma_two_bytes(n, entries + flag);
    lemma_entries_round_trip(s.open_items, flag);
}

/// An item that has been opened is open, no other item is opened with it, and
/// to open it once more changes nothing.
pub proof fn insert_opens_one_item(s: StateView, id: Seq<char>)
    ensures
        s.insert(id).contains(id),
        s.insert(id).insert(id) == s.insert(id),
        forall|other: Seq<char>| other != id ==> s.insert(id).contains(other) == s.contains(other),
        s.insert(id).open_message == s.open_message,
{
    if !s.contains(id) {
        assert(s.insert(id).open_items.last() == id);
        assert forall|other: Seq<char>| other != id implies s.insert(id).contains(other)
            == s.contains(other) by {
            if s.contains(other) {
                let i = choose|i: int| 0 <= i < s.open_items.len() && s.open_items[i] == other;
                assert(s.insert(id).open_items[i] == other);
            }
        }
    }
}

/// An item that has been closed is not open, and no other item is closed with
/// it, in a state that holds no item twice.
pub proof fn remove_closes_one_item(s: StateView, id: Seq<char>)
    requires
        s.open_items.no_duplicates(),
    ensures
        !s.remove(id).contains(id),
        forall|other: Seq<char>| other != id ==> s.remove(id).contains(other) == s.contains(other),
        s.remove(id).open_message == s.open_message,
{
    s.open_items.index_of_first_ensures(id);
    if s.contains(id) {
        let at = s.open_items.index_of_first(id)->0;
        let after = s.open_items.remove(at);
        assert forall|i: int| 0 <= i < after.len() implies after[i] != id by {
            assert(after[i] == if i < at {
                s.open_items[i]
            } else {
                s.open_items[i + 1]
            });
        }
        assert forall|other: Seq<char>| other != id implies s.remove(id).contains(other)
            == s.contains(other) by {
            if s.contains(other) {
                let i = choose|i: int| 0 <= i < s.open_items.len() && s.open_items[i] == other;
                assert(after[if i < at {
                    i
                } else {
                    i - 1
                }] == other);
            }
        }
    }
}

/// Opening and closing items never makes a state hold an item twice.
pub proof fn items_stay_distinct(s: StateView, id: Seq<char>)
    requires
        s.open_items.no_duplicates(),
    ensures
        s.insert(id).open_items.no_duplicates(),
        s.remove(id).open_items.no_duplicates(),
{
    s.open_items.index_of_first_ensures(id);
}

/// Closing an item right after it was opened gives the state from before.
pub proof fn remove_undoes_insert(s: StateView, id: Seq<char>)
    requires
        !s.contains(id),
    ensures
        s.insert(id).remove(id) == s,
{
    let opened = s.open_items.push(id);
    assert(opened.last() == id);
    opened.index_of_first_ensures(id);
    let at = opened.index_of_first(id)->0;
    if at < s.open_items.len() {
        assert(s.open_items[at] == id);
    }
    assert(opened.remove(at) =~= s.open_items);
}

/// At most `count` entries are read, and none of them is longer than a length
/// can tell.
proof fn lemma_decoded_entries_fit(b: Seq<u8>, count: nat)
    ensures
        decode_entries(b, count).0.len() <= count,
        forall|i: int|
            0 <= i < decode_entries(b, count).0.len() ==> encode_utf8(
                #[trigger] decode_entries(b, count).0[i],
            ).len() <= LIMIT,
    decreases count,
{
    if count > 0 && b.len() >= 2 {
        let n = from_two_bytes(b) as int;
        let rest = b.skip(2);
        if n <= rest.len() {
            let text = rest.take(n);
            let later = decode_entries(rest.skip(n), (count - 1) as nat).0;
            lemma_decoded_entries_fit(rest.skip(n), (count - 1) as nat);
            if valid_utf8(text) {
                assert(encode_utf8(decode_utf8(text)) == text) by {
                    vstd::utf8::decode_utf8_encode_utf8(text);
                }
                let ids = decode_entries(b, count).0;
                assert(ids == seq![decode_utf8(text)] + later);
                assert forall|i: int| 0 <= i < ids.len() implies encode_utf8(
                    #[trigger] ids[i],
                ).len() <= LIMIT by {
                    if i > 0 {
                        assert(ids[i] == later[i - 1]);
                    }
                }
            }
        }
    }
}

/// A state that was read from bytes can be carried by bytes, whatever bytes it
/// was read from.
pub proof fn decoded_state_fits(b: Seq<u8>)
    ensures
        decode_state(b).fits(),
{
    if b.len() >= 2 {
        lemma_decoded_entries_fit(b.skip(2), from_two_bytes(b));
    }
}

/// A state that was read from bytes is read again from the bytes that it is
/// written as.
pub proof fn decoding_again_changes_nothing(b: Seq<u8>)
    ensures
        decode_state(encode_state(decode_state(b))) == decode_state(b),
{
    decoded_state_fits(b);
    decode_undoes_encode(decode_state(b));
}

} // verus!
