//! Hash slots: which slot a key belongs to, and sets of slots.
use crate::series::policy::{digits_value, is_digit};
use crate::text::{chars_of, find_char, first_at, is_white, text_of};
use range_set_blaze::RangeSetBlaze;
use vstd::prelude::*;

verus! {

/// How many slots there are.
pub const NUM_SLOTS: u16 = 16384;

/// A set of slots, held as ranges by `range_set_blaze::RangeSetBlaze`.
#[verifier::external_body]
pub struct SlotSet {
    ranges: RangeSetBlaze<u16>,
}

/// The slots in a set.
pub uninterp spec fn slots_of(s: SlotSet) -> Set<u16>;

/// The slots from one to another.
pub open spec fn slot_range(start: u16, end: u16) -> Set<u16> {
    Set::new(|s: u16| start <= s <= end)
}

/// The slots that ranges hold.
pub open spec fn slots_in(ranges: Seq<(u16, u16)>) -> Set<u16> {
    Set::new(
        |s: u16|
            exists|i: int|
                0 <= i < ranges.len() && (#[trigger] ranges[i]).0 <= s && s <= ranges[i].1,
    )
}

/// Ranges that are not empty, in order, with a gap between any two.
pub open spec fn ranges_apart(ranges: Seq<(u16, u16)>) -> bool {
    &&& forall|i: int| 0 <= i < ranges.len() ==> (#[trigger] ranges[i]).0 <= ranges[i].1
    &&& forall|i: int, j: int|
        0 <= i < j < ranges.len() ==> (#[trigger] ranges[i]).1 + 1 < (#[trigger] ranges[j]).0
}

impl SlotSet {
    /// `RangeSetBlaze::new`: no slots.
    #[verifier::external_body]
    fn empty() -> (r: SlotSet)
        ensures
            slots_of(r) == Set::<u16>::empty(),
    {
        SlotSet { ranges: RangeSetBlaze::new() }
    }

    /// `RangeSetBlaze::ranges_insert`: the slots of a range are added. An empty range adds
    /// nothing.
    #[verifier::external_body]
    fn add_range(&mut self, start: u16, end: u16)
        ensures
            slots_of(*final(self)) == slots_of(*old(self)).union(slot_range(start, end)),
    {
        self.ranges.ranges_insert(start..=end);
    }

    /// `RangeSetBlaze::contains`: whether a slot is in the set.
    #[verifier::external_body]
    fn has(&self, slot: u16) -> (r: bool)
        ensures
            r == slots_of(*self).contains(slot),
    {
        self.ranges.contains(slot)
    }

    /// `RangeSetBlaze::is_empty`: whether there is no slot in the set.
    #[verifier::external_body]
    fn has_none(&self) -> (r: bool)
        ensures
            r == (slots_of(*self) == Set::<u16>::empty()),
    {
        self.ranges.is_empty()
    }

    /// `|=` of `RangeSetBlaze`: the slots of the other set are added.
    #[verifier::external_body]
    fn join(&mut self, other: &SlotSet)
        ensures
            slots_of(*final(self)) == slots_of(*old(self)).union(slots_of(*other)),
    {
        self.ranges |= &other.ranges;
    }

    /// `-` of `RangeSetBlaze`: the slots of the other set are taken out.
    #[verifier::external_body]
    fn without(&self, other: &SlotSet) -> (r: SlotSet)
        ensures
            slots_of(r) == slots_of(*self).difference(slots_of(*other)),
    {
        SlotSet { ranges: &self.ranges - &other.ranges }
    }

    /// `RangeSetBlaze::ranges`: the slots as ranges, in order and with a gap between any two.
    #[verifier::external_body]
    fn list(&self) -> (r: Vec<(u16, u16)>)
        ensures
            ranges_apart(r@),
            slots_in(r@) == slots_of(*self),
    {
        self.ranges.ranges().map(|r| (*r.start(), *r.end())).collect()
    }

    /// No slots.
    pub fn new() -> (r: SlotSet)
        ensures
            slots_of(r) == Set::<u16>::empty(),
    {
        SlotSet::empty()
    }

    /// Adds the slots of a range; an empty one adds nothing.
    pub fn insert(&mut self, start: u16, end: u16)
        ensures
            slots_of(*final(self)) == slots_of(*old(self)).union(slot_range(start, end)),
    {
        self.add_range(start, end);
    }

    /// Whether a slot is in the set.
    pub fn contains(&self, slot: u16) -> (r: bool)
        ensures
            r == slots_of(*self).contains(slot),
    {
        self.has(slot)
    }

    /// Whether there is no slot in the set.
    pub fn is_empty(&self) -> (r: bool)
        ensures
            r == (slots_of(*self) == Set::<u16>::empty()),
    {
        self.has_none()
    }

    /// Adds the slots of another set.
    pub fn extend(&mut self, other: &SlotSet)
        ensures
            slots_of(*final(self)) == slots_of(*old(self)).union(slots_of(*other)),
    {
        self.join(other);
    }

    /// Takes out the slots of another set.
    pub fn remove(&mut self, other: &SlotSet)
        ensures
            slots_of(*final(self)) == slots_of(*old(self)).difference(slots_of(*other)),
    {
        *self = self.without(other);
    }

    /// The slots as ranges, in order and with a gap between any two.
    pub fn ranges(&self) -> (r: Vec<(u16, u16)>)
        ensures
            ranges_apart(r@),
            slots_in(r@) == slots_of(*self),
    {
        self.list()
    }

    /// The slots of ranges, given with both ends as the server has them.
    pub fn of_ranges(ranges: &Vec<(u16, u16)>) -> (r: SlotSet)
        ensures
            slots_of(r) == slots_in(ranges@),
    {
        let mut out = SlotSet::new();
        let mut i: usize = 0;
        assert(slots_of(out) =~= slots_in(ranges@.take(0)));
        while i < ranges.len()
            invariant
                i <= ranges@.len(),
                slots_of(out) == slots_in(ranges@.take(i as int)),
            decreases ranges.len() - i,
        {
            let (start, end) = ranges[i];
            out.insert(start, end);
            proof {
                let done = ranges@.take(i as int);
                let more = ranges@.take(i + 1);
                assert forall|s: u16| #[trigger] slots_in(more).contains(s) == slots_in(
                    done,
                ).union(slot_range(start, end)).contains(s) by {
                    if slots_in(more).contains(s) {
                        let k = choose|k: int|
                            0 <= k < more.len() && (#[trigger] more[k]).0 <= s && s <= more[k].1;
                        if k < i {
                            assert(done[k] == more[k]);
                        }
                    }
                    if slots_in(done).contains(s) {
                        let k = choose|k: int|
                            0 <= k < done.len() && (#[trigger] done[k]).0 <= s && s <= done[k].1;
                        assert(done[k] == more[k]);
                    }
                    assert(more[i as int] == (start, end));
                }
                assert(slots_in(more) =~= slots_in(done).union(slot_range(start, end)));
            }
            i += 1;
        }
        assert(ranges@.take(i as int) =~= ranges@);
        out
    }
}

impl Default for SlotSet {
    fn default() -> (r: SlotSet)
        ensures
            slots_of(r) == Set::<u16>::empty(),
    {
        SlotSet::new()
    }
}

/// One step of the division by `x^16 + x^12 + x^5 + 1`.
pub open spec fn crc_bit(c: u16) -> u16 {
    if c & 0x8000 != 0 {
        (c << 1) ^ 0x1021
    } else {
        c << 1
    }
}

/// Some steps of the division.
pub open spec fn crc_bits(c: u16, n: nat) -> u16
    decreases n,
{
    if n == 0 {
        c
    } else {
        crc_bit(crc_bits(c, (n - 1) as nat))
    }
}

/// The remainder that a polynomial of bytes leaves.
pub open spec fn crc16(bytes: Seq<u8>) -> u16
    decreases bytes.len(),
{
    if bytes.len() == 0 {
        0
    } else {
        crc_bits(crc16(bytes.drop_last()) ^ ((bytes.last() as u16) << 8), 8)
    }
}

/// The remainder that a polynomial of bytes leaves.
fn crc_of(bytes: &[u8]) -> (r: u16)
    ensures
        r == crc16(bytes@),
{
    let mut crc: u16 = 0;
    let mut i: usize = 0;
    assert(bytes@.take(0) =~= Seq::<u8>::empty());
    while i < bytes.len()
        invariant
            i <= bytes@.len(),
            crc == crc16(bytes@.take(i as int)),
        decreases bytes.len() - i,
    {
        assert(bytes@.take(i + 1).drop_last() =~= bytes@.take(i as int));
        crc = crc ^ ((bytes[i] as u16) << 8);
        let ghost start = crc;
        let mut n: u8 = 0;
        while n < 8
            invariant
                n <= 8,
                crc == crc_bits(start, n as nat),
            decreases 8 - n,
        {
            crc = if crc & 0x8000 != 0 {
                (crc << 1) ^ 0x1021
            } else {
                crc << 1
            };
            n += 1;
        }
        i += 1;
    }
    assert(bytes@.take(i as int) =~= bytes@);
    crc
}

/// The first place of a byte, or the end.
pub open spec fn byte_at(s: Seq<u8>, b: u8, from: int) -> int
    decreases s.len() - from,
{
    if from >= s.len() {
        s.len() as int
    } else if s[from] == b {
        from
    } else {
        byte_at(s, b, from + 1)
    }
}

fn find_byte(s: &[u8], b: u8, from: usize) -> (r: usize)
    requires
        from <= s@.len(),
    ensures
        r == byte_at(s@, b, from as int),
        from <= r <= s@.len(),
{
    let mut i: usize = from;
    while i < s.len() && s[i] != b
        invariant
            from <= i <= s@.len(),
            byte_at(s@, b, from as int) == byte_at(s@, b, i as int),
        decreases s.len() - i,
    {
        i += 1;
    }
    i
}

/// The part of a key that decides on its slot: what stands between the first opening brace and the
/// first closing one after it, or, where that is nothing, the whole key.
pub open spec fn hash_tag(key: Seq<u8>) -> Seq<u8> {
    let open = byte_at(key, 123, 0);
    let close = byte_at(key, 125, open + 1);
    if open < key.len() && close < key.len() && open + 1 < close {
        key.subrange(open + 1, close)
    } else {
        key
    }
}

/// The slot of a key.
pub open spec fn slot_of(key: Seq<u8>) -> u16 {
    crc16(hash_tag(key)) % NUM_SLOTS
}

/// The slot of a key.
pub fn calculate_hash_slot(key: &[u8]) -> (r: u16)
    ensures
        r == slot_of(key@),
        r < NUM_SLOTS,
{
    let open: usize = find_byte(key, 123, 0);
    if open < key.len() {
        let close: usize = find_byte(key, 125, open + 1);
        if close < key.len() && open + 1 < close {
            return crc_of(vstd::slice::slice_subrange(key, open + 1, close)) % NUM_SLOTS;
        }
    }
    crc_of(key) % NUM_SLOTS
}

proof fn lemma_byte_at(s: Seq<u8>, b: u8, from: int, at: int)
    requires
        0 <= from <= at < s.len(),
        s[at] == b,
        forall|i: int| from <= i < at ==> s[i] != b,
    ensures
        byte_at(s, b, from) == at,
    decreases at - from,
{
    if from < at {
        lemma_byte_at(s, b, from + 1, at);
    }
}

/// Where a key holds a part between braces, that part alone decides on its slot.
pub proof fn law_tag_decides(before: Seq<u8>, tag: Seq<u8>, after: Seq<u8>)
    requires
        !before.contains(123),
        !tag.contains(125),
        tag.len() > 0,
    ensures
        slot_of(before + seq![123u8] + tag + seq![125u8] + after) == crc16(tag) % NUM_SLOTS,
{
    let key = before + seq![123u8] + tag + seq![125u8] + after;
    let open = before.len() as int;
    let close = open + 1 + tag.len();
    assert forall|i: int| 0 <= i < open implies key[i] != 123 by {
        assert(key[i] == before[i]);
    }
    lemma_byte_at(key, 123, 0, open);
    assert forall|i: int| open + 1 <= i < close implies key[i] != 125 by {
        assert(key[i] == tag[i - open - 1]);
    }
    lemma_byte_at(key, 125, open + 1, close);
    assert(key.subrange(open + 1, close) =~= tag);
}

/// Why a text is not a list of slots.
#[derive(Debug, Clone, PartialEq, Eq)]
pub enum SlotError {
    /// The start of a range is not a number.
    Start(String),
    /// The end of a range is not a number.
    End(String),
    /// A range ends before it starts.
    Order(u16, u16),
    /// A range ends past the last slot.
    EndOutOfRange(u16),
    /// What stands for a slot is not a number.
    Slot(String),
    /// A slot is past the last one.
    SlotOutOfRange(u16),
}

/// Whether a character separates slots.
pub open spec fn separates(c: char) -> bool {
    is_white(c) || c == ','
}

/// The parts of a text between separators, without the empty ones.
pub open spec fn tokens(s: Seq<char>) -> Seq<Seq<char>> {
    split_tokens(s).0 + if split_tokens(s).1.len() > 0 {
        seq![split_tokens(s).1]
    } else {
        Seq::empty()
    }
}

/// The parts of a text that are closed by a separator, and the part that is not.
pub open spec fn split_tokens(s: Seq<char>) -> (Seq<Seq<char>>, Seq<char>)
    decreases s.len(),
{
    if s.len() == 0 {
        (Seq::empty(), Seq::empty())
    } else {
        let (closed, open) = split_tokens(s.drop_last());
        if !separates(s.last()) {
            (closed, open.push(s.last()))
        } else if open.len() > 0 {
            (closed.push(open), Seq::empty())
        } else {
            (closed, Seq::empty())
        }
    }
}

/// A text without a plus sign at its start.
pub open spec fn unsigned(s: Seq<char>) -> Seq<char> {
    if s.len() > 0 && s[0] == '+' {
        s.skip(1)
    } else {
        s
    }
}

/// All characters are digits, and there are some.
pub open spec fn all_digits(s: Seq<char>) -> bool {
    s.len() > 0 && forall|i: int| 0 <= i < s.len() ==> is_digit(#[trigger] s[i])
}

/// The number that a text stands for: digits, with a plus sign before them or without one.
pub open spec fn number_of(s: Seq<char>) -> Option<u16> {
    if all_digits(unsigned(s)) && digits_value(unsigned(s)) <= u16::MAX {
        Some(digits_value(unsigned(s)) as u16)
    } else {
        None
    }
}

fn read_number(s: &[char]) -> (r: Option<u16>)
    ensures
        r == number_of(s@),
{
    let mut start: usize = 0;
    if s.len() > 0 && s[0] == '+' {
        start = 1;
    }
    let ghost digits = s@.skip(start as int);
    assert(digits =~= unsigned(s@));
    if start >= s.len() {
        return None;
    }
    let mut i: usize = start;
    let mut value: u32 = 0;
    let mut over: bool = false;
    assert(digits.take(0) =~= Seq::<char>::empty());
    while i < s.len()
        invariant
            start <= i <= s@.len(),
            start < s@.len(),
            digits == s@.skip(start as int),
            digits == unsigned(s@),
            forall|k: int| 0 <= k < i - start ==> is_digit(#[trigger] digits[k]),
            !over ==> value == digits_value(digits.take(i - start)) && value <= u16::MAX,
            over ==> digits_value(digits.take(i - start)) > u16::MAX,
        decreases s.len() - i,
    {
        let c: char = s[i];
        assert(digits[i - start] == c);
        if c < '0' || c > '9' {
            assert(!is_digit(digits[i - start]));
            return None;
        }
        assert(digits.take(i + 1 - start).drop_last() =~= digits.take(i - start));
        assert(is_digit(digits[i - start]));
        if !over {
            value = value * 10 + (c as u32 - '0' as u32);
            if value > 65535 {
                over = true;
            }
        }
        i += 1;
    }
    assert(digits.take(i - start) =~= digits);
    if over {
        None
    } else {
        Some(value as u16)
    }
}

/// What a part of the text stands for.
pub open spec fn token_range(t: Seq<char>) -> Result<(u16, u16), SlotFault> {
    let dash = first_at(t, '-');
    if dash < t.len() {
        match (number_of(t.take(dash)), number_of(t.skip(dash + 1))) {
            (None, _) => Err(SlotFault::Start(t.take(dash))),
            (Some(_), None) => Err(SlotFault::End(t.skip(dash + 1))),
            (Some(a), Some(b)) => if a > b {
                Err(SlotFault::Order(a, b))
            } else if b >= NUM_SLOTS {
                Err(SlotFault::EndOutOfRange(b))
            } else {
                Ok((a, b))
            },
        }
    } else {
        match number_of(t) {
            None => Err(SlotFault::Slot(t)),
            Some(v) => if v >= NUM_SLOTS {
                Err(SlotFault::SlotOutOfRange(v))
            } else {
                Ok((v, v))
            },
        }
    }
}

/// An error, with the text that it is about as characters.
pub ghost enum SlotFault {
    Start(Seq<char>),
    End(Seq<char>),
    Order(u16, u16),
    EndOutOfRange(u16),
    Slot(Seq<char>),
    SlotOutOfRange(u16),
}

/// What an error says.
pub open spec fn fault_of(e: SlotError) -> SlotFault {
    match e {
        SlotError::Start(s) => SlotFault::Start(s@),
        SlotError::End(s) => SlotFault::End(s@),
        SlotError::Order(a, b) => SlotFault::Order(a, b),
        SlotError::EndOutOfRange(v) => SlotFault::EndOutOfRange(v),
        SlotError::Slot(s) => SlotFault::Slot(s@),
        SlotError::SlotOutOfRange(v) => SlotFault::SlotOutOfRange(v),
    }
}

/// The slots of some parts, or what is wrong with the first bad one.
pub open spec fn slots_listed(parts: Seq<Seq<char>>) -> Result<Set<u16>, SlotFault>
    decreases parts.len(),
{
    if parts.len() == 0 {
        Ok(Set::empty())
    } else {
        match slots_listed(parts.drop_last()) {
            Err(e) => Err(e),
            Ok(before) => match token_range(parts.last()) {
                Err(e) => Err(e),
                Ok(range) => Ok(before.union(slot_range(range.0, range.1))),
            },
        }
    }
}

fn read_token(t: &[char]) -> (r: Result<(u16, u16), SlotError>)
    ensures
        match r {
            Ok(range) => token_range(t@) == Ok::<(u16, u16), SlotFault>(range),
            Err(e) => token_range(t@) == Err::<(u16, u16), SlotFault>(fault_of(e)),
        },
{
    let dash: usize = find_char(t, '-');
    if dash < t.len() {
        let before = vstd::slice::slice_subrange(t, 0, dash);
        let after = vstd::slice::slice_subrange(t, dash + 1, t.len());
        assert(before@ =~= t@.take(dash as int));
        assert(after@ =~= t@.skip(dash + 1));
        let start: u16 = match read_number(before) {
            Some(v) => v,
            None => {
                return Err(SlotError::Start(text_of(before)));
            },
        };
        let end: u16 = match read_number(after) {
            Some(v) => v,
            None => {
                return Err(SlotError::End(text_of(after)));
            },
        };
        if start > end {
            return Err(SlotError::Order(start, end));
        }
        if end >= NUM_SLOTS {
            return Err(SlotError::EndOutOfRange(end));
        }
        Ok((start, end))
    } else {
        match read_number(t) {
            None => Err(SlotError::Slot(text_of(t))),
            Some(v) => {
                if v >= NUM_SLOTS {
                    Err(SlotError::SlotOutOfRange(v))
                } else {
                    Ok((v, v))
                }
            },
        }
    }
}

/// The parts of a text, and one more where the text goes on.
proof fn lemma_slots_first_fault(parts: Seq<Seq<char>>, n: int)
    requires
        0 <= n <= parts.len(),
        slots_listed(parts.take(n)) is Err,
    ensures
        slots_listed(parts) == slots_listed(parts.take(n)),
    decreases parts.len() - n,
{
    if n == parts.len() {
        assert(parts.take(n) =~= parts);
    } else {
        assert(parts.take(n + 1).drop_last() =~= parts.take(n));
        lemma_slots_first_fault(parts, n + 1);
    }
}

fn read_tokens(chars: &Vec<char>) -> (r: Vec<Vec<char>>)
    ensures
        r@.map_values(|t: Vec<char>| t@) == tokens(chars@),
{
    let mut closed: Vec<Vec<char>> = Vec::new();
    let mut open: Vec<char> = Vec::new();
    let mut i: usize = 0;
    assert(chars@.take(0) =~= Seq::<char>::empty());
    assert(closed@.map_values(|t: Vec<char>| t@) =~= Seq::<Seq<char>>::empty());
    while i < chars.len()
        invariant
            i <= chars@.len(),
            closed@.map_values(|t: Vec<char>| t@) == split_tokens(chars@.take(i as int)).0,
            open@ == split_tokens(chars@.take(i as int)).1,
        decreases chars.len() - i,
    {
        let c: char = chars[i];
        assert(chars@.take(i + 1).drop_last() =~= chars@.take(i as int));
        let n: u32 = c as u32;
        let white: bool = (9 <= n && n <= 13) || n == 0x20 || n == 0x85 || n == 0xA0 || n == 0x1680
            || (0x2000 <= n && n <= 0x200A) || n == 0x2028 || n == 0x2029 || n == 0x202F || n
            == 0x205F || n == 0x3000;
        let ghost before = closed@;
        if !white && c != ',' {
            open.push(c);
        } else if open.len() > 0 {
            let ghost part = open@;
            closed.push(open);
            open = Vec::new();
            assert(closed@.map_values(|t: Vec<char>| t@) =~= before.map_values(
                |t: Vec<char>| t@,
            ).push(part));
        }
        i += 1;
    }
    assert(chars@.take(i as int) =~= chars@);
    let ghost before = closed@;
    if open.len() > 0 {
        let ghost part = open@;
        closed.push(open);
        assert(closed@.map_values(|t: Vec<char>| t@) =~= before.map_values(
            |t: Vec<char>| t@,
        ) + seq![part]);
    } else {
        assert(before.map_values(|t: Vec<char>| t@) + Seq::<Seq<char>>::empty()
            =~= before.map_values(|t: Vec<char>| t@));
    }
    closed
}

/// Reads a list of slots and of ranges of them, with white space or commas in between: `0-100`,
/// `0-100 200-300`, `0-100,200-300`, `5`.
pub fn parse_slot_ranges(s: &str) -> (r: Result<SlotSet, SlotError>)
    ensures
        match r {
            Ok(set) => slots_listed(tokens(s@)) == Ok::<Set<u16>, SlotFault>(slots_of(set)),
            Err(e) => slots_listed(tokens(s@)) == Err::<Set<u16>, SlotFault>(fault_of(e)),
        },
{
    let chars = chars_of(s);
    let parts = read_tokens(&chars);
    let ghost views = parts@.map_values(|t: Vec<char>| t@);
    let mut out = SlotSet::new();
    let mut i: usize = 0;
    assert(views.take(0) =~= Seq::<Seq<char>>::empty());
    while i < parts.len()
        invariant
            i <= parts@.len(),
            views == parts@.map_values(|t: Vec<char>| t@),
            views == tokens(s@),
            slots_listed(views.take(i as int)) == Ok::<Set<u16>, SlotFault>(slots_of(out)),
        decreases parts.len() - i,
    {
        assert(views.take(i + 1).drop_last() =~= views.take(i as int));
        assert(views.take(i + 1).last() == parts@[i as int]@);
        match read_token(parts[i].as_slice()) {
            Err(e) => {
                proof {
                    lemma_slots_first_fault(views, i + 1);
                }
                return Err(e);
            },
            Ok(range) => {
                out.insert(range.0, range.1);
            },
        }
        i += 1;
    }
    assert(views.take(i as int) =~= views);
    Ok(out)
}

} // verus!
