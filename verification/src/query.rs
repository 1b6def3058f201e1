//! The pattern compiler: signature strings and their compiled form.

use vstd::prelude::*;

verus! {

/// A single pattern position: a byte value together with a mask that says
/// which of its bits take part in equality comparisons.
#[derive(Clone, Copy, Debug)]
pub struct MaskedByte {
    /// The byte value to use for equality comparison.
    pub byte: u8,
    /// The mask to apply to a read byte before equality comparison.
    pub mask: u8,
}

/// Whether the concrete byte `b` matches the masked byte `m`: the two agree
/// on every bit that `m.mask` selects.
pub open spec fn mb_matches(m: MaskedByte, b: u8) -> bool {
    m.byte & m.mask == b & m.mask
}

/// Whether two masked bytes agree on every bit selected by both masks.
pub open spec fn mb_agree(a: MaskedByte, b: MaskedByte) -> bool {
    a.byte & (a.mask & b.mask) == b.byte & (a.mask & b.mask)
}

impl MaskedByte {
    /// Whether the concrete byte `b` matches this masked byte.
    pub fn matches_byte(&self, b: u8) -> (r: bool)
        ensures
            r == mb_matches(*self, b),
    {
        (self.byte & self.mask) == (b & self.mask)
    }
}

impl PartialEq<u8> for MaskedByte {
    fn eq(&self, other: &u8) -> (r: bool) {
        (self.byte & self.mask) == (*other & self.mask)
    }
}

impl vstd::std_specs::cmp::PartialEqSpecImpl<u8> for MaskedByte {
    open spec fn obeys_eq_spec() -> bool {
        true
    }

    open spec fn eq_spec(&self, other: &u8) -> bool {
        mb_matches(*self, *other)
    }
}

impl PartialEq for MaskedByte {
    fn eq(&self, other: &MaskedByte) -> (r: bool) {
        let mask = self.mask & other.mask;
        (self.byte & mask) == (other.byte & mask)
    }
}

impl vstd::std_specs::cmp::PartialEqSpecImpl for MaskedByte {
    open spec fn obeys_eq_spec() -> bool {
        true
    }

    open spec fn eq_spec(&self, other: &MaskedByte) -> bool {
        mb_agree(*self, *other)
    }
}

/// Diagnosable ways in which compiling a signature string can fail.
#[derive(Clone, Copy, Debug, PartialEq, Eq, Structural)]
pub enum BuildError {
    /// A character outside the accepted alphabet.
    InvalidCharacter,
    /// An odd number of nibbles: the final nibble has no pair.
    UnterminatedByte,
    /// More than one anchor marker.
    DuplicateAnchor,
    /// An anchor marker in the middle of a byte.
    MisplacedAnchor,
}

/// Whether `c` is a whitespace character (the Unicode `White_Space` set);
/// whitespace is ignored in signature strings.
pub open spec fn space_char(c: char) -> bool {
    let u = c as u32;
    ||| u == 0x20
    ||| (0x09 <= u && u <= 0x0D)
    ||| u == 0x85
    ||| u == 0xA0
    ||| u == 0x1680
    ||| (0x2000 <= u && u <= 0x200A)
    ||| u == 0x2028
    ||| u == 0x2029
    ||| u == 0x202F
    ||| u == 0x205F
    ||| u == 0x3000
}

/// The value of `c` as a hexadecimal digit, or `None` if it is not one.
pub open spec fn hex_digit_val(c: char) -> Option<u8> {
    let u = c as u32;
    if 0x30 <= u && u <= 0x39 {  // '0' ..= '9'
        Some((u - 0x30) as u8)
    } else if 0x61 <= u && u <= 0x66 {  // 'a' ..= 'f'
        Some((u - 0x61 + 10) as u8)
    } else if 0x41 <= u && u <= 0x46 {  // 'A' ..= 'F'
        Some((u - 0x41 + 10) as u8)
    } else {
        None
    }
}

/// Whether `c` is a hexadecimal digit (a known nibble).
pub open spec fn hex_char(c: char) -> bool {
    hex_digit_val(c) is Some
}

/// Whether `c` is the wildcard letter (an unknown nibble), either case.
pub open spec fn masked_char(c: char) -> bool {
    c as u32 == 0x78 || c as u32 == 0x58  // 'x' or 'X'
}

/// Whether `c` is the anchor marker.
pub open spec fn anchor_char(c: char) -> bool {
    c as u32 == 0x7C  // '|'
}

/// Whether `c` contributes a nibble to the pattern.
pub open spec fn nibble_char(c: char) -> bool {
    hex_char(c) || masked_char(c)
}

/// Returns whether the character is an anchor character.
fn is_anchor_char(c: char) -> (r: bool)
    ensures
        r == anchor_char(c),
{
    c as u32 == 0x7C
}

/// Returns whether the character is a masked (wildcard) character.
fn is_masked_char(c: char) -> (r: bool)
    ensures
        r == masked_char(c),
{
    c as u32 == 0x78 || c as u32 == 0x58
}

/// Returns the hexadecimal digit value of the character, if it has one.
fn hex_digit(c: char) -> (r: Option<u8>)
    ensures
        r == hex_digit_val(c),
{
    let u = c as u32;
    if 0x30 <= u && u <= 0x39 {
        Some((u - 0x30) as u8)
    } else if 0x61 <= u && u <= 0x66 {
        Some((u - 0x61 + 10) as u8)
    } else if 0x41 <= u && u <= 0x46 {
        Some((u - 0x41 + 10) as u8)
    } else {
        None
    }
}

/// Returns whether the character is a nibble character.
fn is_nibble_char(c: char) -> (r: bool)
    ensures
        r == nibble_char(c),
{
    let u = c as u32;
    (0x30 <= u && u <= 0x39) || (0x61 <= u && u <= 0x66) || (0x41 <= u && u <= 0x46)
        || is_masked_char(c)
}

/// Returns whether the character is whitespace.
fn is_space_char(c: char) -> (r: bool)
    ensures
        r == space_char(c),
{
    let u = c as u32;
    u == 0x20 || (0x09 <= u && u <= 0x0D) || u == 0x85 || u == 0xA0 || u == 0x1680
        || (0x2000 <= u && u <= 0x200A) || u == 0x2028 || u == 0x2029 || u == 0x202F
        || u == 0x205F || u == 0x3000
}

/// The state of the compiler after reading a prefix of the signature:
/// the masked bytes completed so far, the number of nibbles consumed, the
/// partially accumulated byte, and the anchor if one was seen.
pub ghost struct ParseState {
    /// Completed masked bytes, in source order.
    pub pattern: Seq<MaskedByte>,
    /// Number of nibble characters consumed so far.
    pub nib: nat,
    /// Value bits accumulated for the byte in progress.
    pub val: u8,
    /// Mask bits accumulated for the byte in progress.
    pub msk: u8,
    /// The recorded anchor byte index, if an anchor marker was seen.
    pub anchor: Option<nat>,
}

/// The compiler's state before any character has been read.
pub open spec fn parse_init() -> ParseState {
    ParseState { pattern: Seq::empty(), nib: 0, val: 0, msk: 0, anchor: None }
}

/// One step of the compiler: how reading the character `c` transforms the
/// state `st`, or which error it raises.
pub open spec fn parse_step(st: ParseState, c: char) -> Result<ParseState, BuildError> {
    if space_char(c) {
        Ok(st)
    } else if anchor_char(c) {
        if st.anchor is Some {
            Err(BuildError::DuplicateAnchor)
        } else if st.nib % 2 != 0 {
            Err(BuildError::MisplacedAnchor)
        } else {
            Ok(ParseState { anchor: Some((st.nib / 2) as nat), ..st })
        }
    } else if nibble_char(c) {
        let v = match hex_digit_val(c) {
            Some(d) => d,
            None => 0,
        };
        let m: u8 = if hex_char(c) {
            0xF
        } else {
            0
        };
        let val2 = (st.val << 4) | v;
        let msk2 = (st.msk << 4) | m;
        if st.nib % 2 == 0 {
            Ok(ParseState { nib: st.nib + 1, val: val2, msk: msk2, ..st })
        } else {
            Ok(
                ParseState {
                    pattern: st.pattern.push(MaskedByte { byte: val2, mask: msk2 }),
                    nib: st.nib + 1,
                    val: 0,
                    msk: 0,
                    ..st
                },
            )
        }
    } else {
        Err(BuildError::InvalidCharacter)
    }
}

/// The compiler's state after reading the first `n` characters of `s`, or
/// the first error raised along the way.
pub open spec fn parse_prefix(s: Seq<char>, n: int) -> Result<ParseState, BuildError>
    decreases n,
{
    if n <= 0 {
        Ok(parse_init())
    } else {
        match parse_prefix(s, n - 1) {
            Ok(st) => parse_step(st, s[n - 1]),
            Err(e) => Err(e),
        }
    }
}

/// The number of nibble characters among the first `n` characters of `s`.
pub open spec fn nibbles_in(s: Seq<char>, n: int) -> int
    decreases n,
{
    if n <= 0 {
        0
    } else {
        nibbles_in(s, n - 1) + if nibble_char(s[n - 1]) {
            1int
        } else {
            0int
        }
    }
}

/// What compiling the signature `s` yields: the pattern and the anchor
/// (which defaults to zero), or the error.  An odd total nibble count is
/// reported before any error the character scan would raise.
pub open spec fn compiled(s: Seq<char>) -> Result<(Seq<MaskedByte>, nat), BuildError> {
    if nibbles_in(s, s.len() as int) % 2 != 0 {
        Err(BuildError::UnterminatedByte)
    } else {
        match parse_prefix(s, s.len() as int) {
            Ok(st) => Ok(
                (
                    st.pattern,
                    match st.anchor {
                        Some(a) => a,
                        None => 0,
                    },
                ),
            ),
            Err(e) => Err(e),
        }
    }
}

/// Once the scan has raised an error, reading further characters leaves
/// that error in place.
pub proof fn lemma_parse_error_persists(s: Seq<char>, i: int, j: int)
    requires
        0 <= i <= j,
        parse_prefix(s, i) is Err,
    ensures
        parse_prefix(s, j) == parse_prefix(s, i),
    decreases j - i,
{
    if j > i {
        lemma_parse_error_persists(s, i, j - 1);
    }
}

/// A compiled, immutable memory search query.
#[derive(Debug)]
pub struct Query {
    /// The masked bytes to compare against, in order.
    pub bytes: Vec<MaskedByte>,
    /// The anchor position within the search query.  If a match is found,
    /// the anchor position is added to the start address of the match.
    pub anchor: usize,
}

impl Query {
    /// A query is well formed when its anchor lies within the pattern;
    /// compilation always establishes this.
    pub open spec fn wf(self) -> bool {
        self.anchor <= self.bytes@.len()
    }

    /// Returns the length of this query.
    pub fn len(&self) -> (n: usize)
        ensures
            n == self.bytes@.len(),
    {
        self.bytes.len()
    }
}

impl PartialEq for Query {
    fn eq(&self, other: &Query) -> (r: bool) {
        if self.bytes.len() != other.bytes.len() || self.anchor != other.anchor {
            return false;
        }
        let mut i: usize = 0;
        while i < self.bytes.len()
            invariant
                i <= self.bytes@.len(),
                self.bytes@.len() == other.bytes@.len(),
                self.anchor == other.anchor,
                forall|k: int| 0 <= k < i ==> mb_agree(self.bytes@[k], other.bytes@[k]),
            decreases self.bytes@.len() - i,
        {
            if !(self.bytes[i] == other.bytes[i]) {
                return false;
            }
            i = i + 1;
        }
        true
    }
}

impl vstd::std_specs::cmp::PartialEqSpecImpl for Query {
    open spec fn obeys_eq_spec() -> bool {
        true
    }

    open spec fn eq_spec(&self, other: &Query) -> bool {
        &&& self.bytes@.len() == other.bytes@.len()
        &&& forall|k: int| 0 <= k < self.bytes@.len() ==> mb_agree(self.bytes@[k], other.bytes@[k])
        &&& self.anchor == other.anchor
    }
}

/// Returns the number of bytes the query string describes, or the
/// unterminated-byte error when its nibble count is odd.
fn calc_query_size(what: &str) -> (r: Result<usize, BuildError>)
    ensures
        match r {
            Ok(k) => nibbles_in(what@, what@.len() as int) % 2 == 0 && k == nibbles_in(
                what@,
                what@.len() as int,
            ) / 2,
            Err(e) => e == BuildError::UnterminatedByte && nibbles_in(
                what@,
                what@.len() as int,
            ) % 2 != 0,
        },
{
    let n = what.unicode_len();
    let mut i: usize = 0;
    let mut count: usize = 0;
    while i < n
        invariant
            i <= n,
            n == what@.len(),
            count == nibbles_in(what@, i as int),
            count <= i,
        decreases n - i,
    {
        if is_nibble_char(what.get_char(i)) {
            count = count + 1;
        }
        i = i + 1;
    }
    if count % 2 == 0 {
        Ok(count / 2)
    } else {
        Err(BuildError::UnterminatedByte)
    }
}

impl Query {
    /// Returns a query built from a query string, or the first error the
    /// grammar raises on it.
    pub fn build(what: &str) -> (r: Result<Query, BuildError>)
        ensures
            match r {
                Ok(q) => {
                    &&& compiled(what@) matches Ok(p) && p.0 == q.bytes@ && p.1 == q.anchor as nat
                    &&& q.wf()
                },
                Err(e) => compiled(what@) == Err::<(Seq<MaskedByte>, nat), BuildError>(e),
            },
    {
        let cap = match calc_query_size(what) {
            Ok(k) => k,
            Err(e) => {
                return Err(e);
            },
        };
        let mut bytes: Vec<MaskedByte> = Vec::with_capacity(cap);
        let mut anchor: Option<usize> = None;

        let mut val: u8 = 0;
        let mut msk: u8 = 0;
        let mut nib: usize = 0;

        let n = what.unicode_len();
        let mut i: usize = 0;
        while i < n
            invariant
                i <= n,
                n == what@.len(),
                nib <= i,
                bytes@.len() == nib as int / 2,
                nibbles_in(what@, n as int) % 2 == 0,
                parse_prefix(what@, i as int) == Ok::<ParseState, BuildError>(
                    ParseState {
                        pattern: bytes@,
                        nib: nib as nat,
                        val: val,
                        msk: msk,
                        anchor: match anchor {
                            Some(a) => Some(a as nat),
                            None => None,
                        },
                    },
                ),
                match anchor {
                    Some(a) => a <= bytes@.len(),
                    None => true,
                },
            decreases n - i,
        {
            let ghost st_prev = parse_prefix(what@, i as int)->Ok_0;
            let c = what.get_char(i);
            if is_space_char(c) {
                // Whitespace is ignored.
            } else if is_anchor_char(c) {
                if anchor.is_some() {
                    proof {
                        lemma_parse_error_persists(what@, i as int + 1, n as int);
                    }
                    return Err(BuildError::DuplicateAnchor);
                } else if nib % 2 != 0 {
                    proof {
                        lemma_parse_error_persists(what@, i as int + 1, n as int);
                    }
                    return Err(BuildError::MisplacedAnchor);
                } else {
                    anchor = Some(nib / 2);
                }
            } else {
                // The character must contribute a nibble.
                if let Some(d) = hex_digit(c) {
                    val = (val << 4) | d;
                    msk = (msk << 4) | 0xF;
                } else if is_masked_char(c) {
                    proof {
                        assert((val << 4) | 0u8 == (val << 4)) by (bit_vector);
                        assert((msk << 4) | 0u8 == (msk << 4)) by (bit_vector);
                    }
                    val = val << 4;
                    msk = msk << 4;
                } else {
                    proof {
                        lemma_parse_error_persists(what@, i as int + 1, n as int);
                    }
                    return Err(BuildError::InvalidCharacter);
                }
                // Move to the next nibble; two nibbles complete a byte.
                nib = nib + 1;
                if nib % 2 == 0 {
                    bytes.push(MaskedByte { byte: val, mask: msk });
                    val = 0;
                    msk = 0;
                }
            }
            i = i + 1;
            proof {
                assert(parse_prefix(what@, i as int) == parse_step(st_prev, what@[i - 1]));
            }
        }

        let a = match anchor {
            Some(a) => a,
            None => 0,
        };
        Ok(Query { bytes, anchor: a })
    }
}

} // verus!
