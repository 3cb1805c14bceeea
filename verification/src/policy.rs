//! A topic's message-deduplication policy.

use std::str::FromStr;

use vstd::prelude::*;

verus! {

/// Longest header key a topic may dedup on. Wire header keys go up to 255
/// bytes; the cap keeps [`DedupHeaderName`] a small `Copy` value.
pub const MAX_DEDUP_HEADER_LENGTH: usize = 64;

/// Longest dedup window a topic may configure: a day, in microseconds. The
/// index costs memory per distinct key seen inside the window, so an unbounded
/// window is an unbounded index; a day is far past any producer retry horizon.
pub const MAX_DEDUP_WINDOW_MICROS: u64 = 24 * 60 * 60 * 1_000_000;

/// The user-header key whose value identifies a message for deduplication.
///
/// Matched against header keys byte for byte, regardless of the key's
/// declared kind: producers in different SDKs encode the same text key as
/// `String` or `Raw`, and both must dedup together.
#[derive(Debug, Clone, Copy, Hash)]
pub struct DedupHeaderName {
    bytes: [u8; MAX_DEDUP_HEADER_LENGTH],
    len: u8,
}

/// Why a string cannot name a dedup header.
#[derive(Debug, Clone, Copy, PartialEq, Eq, Structural)]
pub enum DedupHeaderNameError {
    Empty,
    TooLong,
}

impl View for DedupHeaderName {
    type V = Seq<u8>;

    /// The bytes of the name.
    closed spec fn view(&self) -> Seq<u8> {
        self.bytes@.take(self.len as int)
    }
}

impl PartialEq for DedupHeaderName {
    fn eq(&self, other: &Self) -> (equal: bool) {
        if self.len != other.len {
            return false;
        }
        let mut i: usize = 0;
        while i < MAX_DEDUP_HEADER_LENGTH
            invariant
                i <= MAX_DEDUP_HEADER_LENGTH,
                self.len == other.len,
                forall|j: int| 0 <= j < i ==> self.bytes@[j] == other.bytes@[j],
            decreases MAX_DEDUP_HEADER_LENGTH - i,
        {
            if self.bytes[i] != other.bytes[i] {
                return false;
            }
            i += 1;
        }
        assert(self.bytes@ =~= other.bytes@);
        true
    }
}

impl vstd::std_specs::cmp::PartialEqSpecImpl for DedupHeaderName {
    open spec fn obeys_eq_spec() -> bool {
        true
    }

    open spec fn eq_spec(&self, other: &Self) -> bool {
        self.same_storage(*other)
    }
}

impl Eq for DedupHeaderName {

}

impl DedupHeaderName {
    /// A name of 1 to [`MAX_DEDUP_HEADER_LENGTH`] bytes of UTF-8, with nothing
    /// stored behind it.
    pub closed spec fn well_formed(self) -> bool {
        &&& 1 <= self.len <= MAX_DEDUP_HEADER_LENGTH
        &&& forall|i: int| self.len <= i < MAX_DEDUP_HEADER_LENGTH ==> #[trigger] self.bytes@[i] == 0
        &&& vstd::utf8::valid_utf8(self@)
    }

    /// Whether two names are stored alike.
    pub closed spec fn same_storage(self, other: DedupHeaderName) -> bool {
        self.len == other.len && self.bytes@ == other.bytes@
    }

    /// Header names compare by content: what is stored behind a name never
    /// tells two equal names apart, nor makes two different ones equal.
    pub proof fn lemma_names_compare_by_content(a: DedupHeaderName, b: DedupHeaderName)
        requires
            a.well_formed(),
            b.well_formed(),
        ensures
            a.same_storage(b) <==> a@ == b@,
    {
        if a@ == b@ {
            assert(a@.len() == a.len && b@.len() == b.len);
            assert forall|i: int| 0 <= i < MAX_DEDUP_HEADER_LENGTH implies a.bytes@[i]
                == b.bytes@[i] by {
                if i < a.len {
                    assert(a@[i] == a.bytes@[i] && b@[i] == b.bytes@[i]);
                }
            }
            assert(a.bytes@ =~= b.bytes@);
        }
    }

    /// The bounds on the length of a name.
    pub proof fn lemma_length(self)
        requires
            self.well_formed(),
        ensures
            1 <= self@.len() <= MAX_DEDUP_HEADER_LENGTH,
            vstd::utf8::valid_utf8(self@),
    {
    }

    /// The bytes of the name.
    pub fn as_bytes(&self) -> (bytes: &[u8])
        requires
            self.well_formed(),
        ensures
            bytes@ == self@,
    {
        let all = self.bytes.as_slice();
        vstd::slice::slice_subrange(all, 0, self.len as usize)
    }

    /// The name as text.
    pub fn to_string(&self) -> (text: String)
        requires
            self.well_formed(),
        ensures
            vstd::utf8::encode_utf8(text@) == self@,
    {
        lossy_text(self.as_bytes())
    }
}

/// The text that `String::from_utf8_lossy` reads in a byte sequence.
pub uninterp spec fn utf8_lossy(bytes: Seq<u8>) -> Seq<char>;

/// `String::from_utf8_lossy`: the text a byte sequence encodes. It depends on
/// the bytes alone, and UTF-8 reads as the text it encodes; what stands in the
/// place of bytes that are not UTF-8 is not stated.
#[verifier::external_body]
pub(crate) fn lossy_text(bytes: &[u8]) -> (text: String)
    ensures
        text@ == utf8_lossy(bytes@),
        vstd::utf8::valid_utf8(bytes@) ==> vstd::utf8::encode_utf8(text@) == bytes@,
{
    String::from_utf8_lossy(bytes).into_owned()
}

impl FromStr for DedupHeaderName {
    type Err = DedupHeaderNameError;

    /// The name spelled by `value`, or why it cannot be one.
    fn from_str(value: &str) -> (name: Result<Self, DedupHeaderNameError>)
        ensures
            name is Ok <==> 1 <= vstd::utf8::encode_utf8(value@).len() <= MAX_DEDUP_HEADER_LENGTH,
            name is Ok <==> 1 <= vstd::utf8::encode_utf8(value@).len() <= 64,
            name matches Ok(parsed) ==> parsed.well_formed() && parsed@ == vstd::utf8::encode_utf8(
                value@,
            ),
            name == Err::<DedupHeaderName, _>(DedupHeaderNameError::Empty)
                <==> vstd::utf8::encode_utf8(value@).len() == 0,
            name == Err::<DedupHeaderName, _>(DedupHeaderNameError::TooLong)
                <==> vstd::utf8::encode_utf8(value@).len() > MAX_DEDUP_HEADER_LENGTH,
    {
        let raw = value.as_bytes();
        if raw.len() == 0 {
            return Err(DedupHeaderNameError::Empty);
        }
        if raw.len() > MAX_DEDUP_HEADER_LENGTH {
            return Err(DedupHeaderNameError::TooLong);
        }
        let mut bytes: [u8; MAX_DEDUP_HEADER_LENGTH] = [0u8;MAX_DEDUP_HEADER_LENGTH];
        let mut i: usize = 0;
        while i < raw.len()
            invariant
                i <= raw@.len() <= MAX_DEDUP_HEADER_LENGTH,
                bytes@.len() == MAX_DEDUP_HEADER_LENGTH,
                forall|j: int| 0 <= j < i ==> #[trigger] bytes@[j] == raw@[j],
                forall|j: int| i <= j < MAX_DEDUP_HEADER_LENGTH ==> #[trigger] bytes@[j] == 0,
            decreases raw@.len() - i,
        {
            bytes[i] = raw[i];
            i += 1;
        }
        let name = DedupHeaderName { bytes, len: raw.len() as u8 };
        proof {
            assert(name@ =~= raw@);
            vstd::utf8::encode_utf8_valid_utf8(value@);
        }
        Ok(name)
    }
}

/// A span of time.
#[derive(Debug, Clone, Copy, PartialEq, Eq, Structural)]
pub struct IggyDuration {
    /// The span in microseconds.
    pub micros: u64,
}

impl From<u64> for IggyDuration {
    fn from(micros: u64) -> (duration: Self) {
        IggyDuration { micros }
    }
}

impl vstd::std_specs::convert::FromSpecImpl<u64> for IggyDuration {
    open spec fn obeys_from_spec() -> bool {
        true
    }

    open spec fn from_spec(micros: u64) -> Self {
        IggyDuration { micros }
    }
}

impl IggyDuration {
    /// The span in microseconds.
    pub fn as_micros(&self) -> (micros: u64)
        ensures
            micros == self.micros,
    {
        self.micros
    }
}

/// A span made of a number of microseconds has that number of them.
pub proof fn lemma_duration_is_its_micros(micros: u64)
    ensures
        <IggyDuration as vstd::std_specs::convert::FromSpec<u64>>::obeys_from_spec(),
        <IggyDuration as vstd::std_specs::convert::FromSpec<u64>>::from_spec(micros).micros
            == micros,
{
}

/// A topic's resolved message-deduplication policy.
///
/// Present only when the topic set a non-zero `dedup_window` and a
/// `dedup_header`: a partition either dedups with both or not at all.
#[derive(Debug, Clone, Copy, PartialEq, Eq)]
pub struct MessageDedupPolicy {
    pub window: IggyDuration,
    pub header: DedupHeaderName,
}

impl MessageDedupPolicy {
    /// The window in microseconds.
    pub fn window_micros(&self) -> (micros: u64)
        ensures
            micros == self.window.micros,
    {
        self.window.as_micros()
    }
}

} // verus!
