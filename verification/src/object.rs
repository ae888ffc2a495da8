//! Git objects: blob, tree, commit and tag, their wire format and their
//! identity.
//!
//! An object's identity is the SHA-1 digest of its loose frame
//! (`kind ' ' size NUL payload`). Parsing never checks that identity; the
//! object database does.

use vstd::prelude::*;
use vstd::utf8::{encode_utf8, is_ascii_chars};

use crate::bytes::{
    ascii, find, push_all, push_text, same_bytes, text, to_vec, upto, upto_is, upto_spec,
    DIGIT_ZERO, NUL, SPACE,
};
use crate::codec::{sha1, sha1_digest};
use crate::notation::{
    all_digits, all_hex, ascii_chars, ascii_string, decimal, decimal_round_trip, decimal_value,
    decode_hex_nibble, digits_value, hex, hex_bytes, hex_round_trip, nibble_value, push_decimal,
    unhex,
};

pub mod blob;
pub mod commit;
pub mod exact;
pub mod headers;
pub mod laws;
pub mod parsed;
pub mod signature;
pub mod signing;
pub mod tag;
pub mod tree;
pub mod written;

pub use blob::Blob;
pub use commit::{Commit, CommitView};
pub use signature::{Signature, SignatureView};
pub use tag::{Tag, TagView};
pub use tree::{EntryMode, Tree, TreeEntry, TreeEntryView};

verus! {

// ---------------------------------------------------------------------
// Object ids
// ---------------------------------------------------------------------

/// A 20-byte SHA-1 object identifier.
#[derive(Clone, Copy, Debug, Eq, Hash)]
pub struct ObjectId([u8; 20]);

impl View for ObjectId {
    type V = Seq<u8>;

    closed spec fn view(&self) -> Seq<u8> {
        self.0@
    }
}

impl PartialEq for ObjectId {
    fn eq(&self, other: &Self) -> (r: bool) {
        let mut i: usize = 0;
        while i < 20
            invariant
                i <= 20,
                forall|j: int| 0 <= j < i ==> self.0@[j] == other.0@[j],
            decreases 20 - i,
        {
            if self.0[i] != other.0[i] {
                return false;
            }
            i += 1;
        }
        assert(self@ =~= other@);
        true
    }
}

impl vstd::std_specs::cmp::PartialEqSpecImpl for ObjectId {
    open spec fn obeys_eq_spec() -> bool {
        true
    }

    open spec fn eq_spec(&self, other: &Self) -> bool {
        self@ == other@
    }
}

/// The 20 zero bytes that the wire protocol uses for "no object".
pub open spec fn zero_id() -> Seq<u8> {
    Seq::new(20, |i: int| 0u8)
}

/// The id that 40 hexadecimal digits of either case denote, and `None` for
/// any other text.
pub open spec fn id_from_hex(s: Seq<u8>) -> Option<Seq<u8>> {
    if s.len() == 40 && all_hex(s) {
        Some(unhex(s))
    } else {
        None
    }
}

impl ObjectId {
    /// An id is its 20 bytes and nothing else.
    pub broadcast proof fn identity(a: ObjectId, b: ObjectId)
        ensures
            #![trigger a@, b@]
            a@ == b@ ==> a == b,
    {
        if a@ == b@ {
            assert(a.0 =~= b.0);
        }
    }

    /// An id has 20 bytes.
    pub broadcast proof fn view_len(a: ObjectId)
        ensures
            #[trigger] a@.len() == 20,
    {
    }

    /// The all-zero id.
    pub fn zero() -> (r: ObjectId)
        ensures
            r@ == zero_id(),
    {
        let r = ObjectId([0u8; 20]);
        assert(r@ =~= zero_id());
        r
    }

    /// Parses 40 hexadecimal digits of either case.
    pub fn from_hex(s: &str) -> (r: Result<ObjectId, ParseError>)
        ensures
            match r {
                Ok(id) => id_from_hex(encode_utf8(s@)) == Some(id@),
                Err(e) => id_from_hex(encode_utf8(s@)) is None && e is InvalidHex,
            },
    {
        ObjectId::from_hex_bytes(s.as_bytes())
    }

    /// Parses 40 hexadecimal digits of either case, given as bytes.
    pub fn from_hex_bytes(s: &[u8]) -> (r: Result<ObjectId, ParseError>)
        ensures
            match r {
                Ok(id) => id_from_hex(s@) == Some(id@),
                Err(e) => id_from_hex(s@) is None && e is InvalidHex,
            },
    {
        if s.len() != 40 {
            return Err(ParseError::InvalidHex);
        }
        let mut out = [0u8; 20];
        let mut i: usize = 0;
        while i < 20
            invariant
                i <= 20,
                s@.len() == 40,
                forall|j: int| 0 <= j < 2 * i ==> nibble_value(#[trigger] s@[j]) is Some,
                forall|j: int| 0 <= j < i ==> out@[j] == #[trigger] unhex(s@)[j],
            decreases 20 - i,
        {
            let hi: u8 = match decode_hex_nibble(s[2 * i]) {
                Some(n) => n,
                None => {
                    assert(nibble_value(s@[2 * i]) is None);
                    return Err(ParseError::InvalidHex);
                },
            };
            let lo: u8 = match decode_hex_nibble(s[2 * i + 1]) {
                Some(n) => n,
                None => {
                    assert(nibble_value(s@[2 * i + 1]) is None);
                    return Err(ParseError::InvalidHex);
                },
            };
            out[i] = hi * 16 + lo;
            i += 1;
        }
        assert(out@ =~= unhex(s@));
        Ok(ObjectId(out))
    }

    /// The id as 40 lowercase hexadecimal digits.
    pub fn to_hex(&self) -> (r: String)
        ensures
            r@ == ascii_chars(hex(self@)),
            encode_utf8(r@) == hex(self@),
    {
        let v = self.to_hex_bytes();
        proof {
            hex_round_trip(self@);
        }
        ascii_string(v)
    }

    /// The id as 40 lowercase hexadecimal digits, as bytes.
    pub fn to_hex_bytes(&self) -> (r: Vec<u8>)
        ensures
            r@ == hex(self@),
            r@.len() == 40,
    {
        hex_bytes(&self.0)
    }

    /// The 20 bytes of the id.
    pub fn as_bytes(&self) -> (r: &[u8; 20])
        ensures
            r@ == self@,
    {
        &self.0
    }

    /// The id made of the given bytes.
    pub fn from_bytes(bytes: [u8; 20]) -> (r: ObjectId)
        ensures
            r@ == bytes@,
    {
        ObjectId(bytes)
    }

    /// The id made of the 20 bytes of `s` that begin at `at`.
    pub fn from_slice(s: &[u8], at: usize) -> (r: ObjectId)
        requires
            at + 20 <= s@.len(),
        ensures
            r@ == s@.subrange(at as int, at + 20),
    {
        assert(s.len() == s@.len());
        let mut out = [0u8; 20];
        let mut i: usize = 0;
        while i < 20
            invariant
                i <= 20,
                at + 20 <= s@.len(),
                s@.len() <= usize::MAX,
                forall|j: int| 0 <= j < i ==> out@[j] == s@[at + j],
            decreases 20 - i,
        {
            out[i] = s[at + i];
            i += 1;
        }
        assert(out@ =~= s@.subrange(at as int, at + 20));
        ObjectId(out)
    }

    /// Whether this is the all-zero id.
    pub fn is_zero(&self) -> (r: bool)
        ensures
            r <==> self@ == zero_id(),
    {
        *self == ObjectId::zero()
    }

    /// The id of a payload of the given kind: the digest of its frame.
    pub fn compute(kind: ObjectKind, payload: &[u8]) -> (r: ObjectId)
        ensures
            r@ == object_id(kind, payload@),
    {
        let framed = frame_payload(kind, payload);
        ObjectId(sha1(&framed))
    }
}

/// Law: reading back the hexadecimal form of an id gives the id.
pub proof fn law_hex_round_trip(id: ObjectId)
    ensures
        id_from_hex(hex(id@)) == Some(id@),
{
    hex_round_trip(id@);
}

// ---------------------------------------------------------------------
// Kinds and frames
// ---------------------------------------------------------------------

/// The four kinds of Git object.
#[derive(Clone, Copy, Debug, PartialEq, Eq, Structural)]
pub enum ObjectKind {
    Blob,
    Tree,
    Commit,
    Tag,
}

impl ObjectKind {
    /// The lowercase token of the kind.
    pub open spec fn token(self) -> Seq<char> {
        match self {
            ObjectKind::Blob => "blob"@,
            ObjectKind::Tree => "tree"@,
            ObjectKind::Commit => "commit"@,
            ObjectKind::Tag => "tag"@,
        }
    }

    /// The lowercase token used in frames and in a tag's `type` header.
    pub fn as_str(self) -> (r: &'static str)
        ensures
            r@ == self.token(),
    {
        match self {
            ObjectKind::Blob => "blob",
            ObjectKind::Tree => "tree",
            ObjectKind::Commit => "commit",
            ObjectKind::Tag => "tag",
        }
    }
}

/// The kind that a token names, if it names one.
pub open spec fn kind_of_token(s: Seq<u8>) -> Option<ObjectKind> {
    if s == ascii("blob"@) {
        Some(ObjectKind::Blob)
    } else if s == ascii("tree"@) {
        Some(ObjectKind::Tree)
    } else if s == ascii("commit"@) {
        Some(ObjectKind::Commit)
    } else if s == ascii("tag"@) {
        Some(ObjectKind::Tag)
    } else {
        None
    }
}

/// Each kind's token is ASCII without space or line feed, and names the
/// kind again.
pub proof fn kind_token_facts(kind: ObjectKind)
    ensures
        is_ascii_chars(kind.token()),
        ascii(kind.token()).len() > 0,
        forall|i: int| 0 <= i < ascii(kind.token()).len() ==> 97 <= #[trigger] ascii(kind.token())[i],
        kind_of_token(ascii(kind.token())) == Some(kind),
{
    reveal_strlit("blob");
    reveal_strlit("tree");
    reveal_strlit("commit");
    reveal_strlit("tag");
    assert(ascii("blob"@)[0] == 98u8);
    assert(ascii("tree"@)[0] == 116u8);
    assert(ascii("commit"@)[0] == 99u8);
    assert(ascii("tag"@).len() == 3 && ascii("commit"@).len() == 6);
    assert(ascii("blob"@) != ascii("tree"@));
    assert(ascii("blob"@) != ascii("commit"@));
    assert(ascii("blob"@) != ascii("tag"@));
    assert(ascii("tree"@) != ascii("commit"@));
    assert(ascii("tree"@) != ascii("tag"@));
    assert(ascii("commit"@) != ascii("tag"@));
}

/// Reads a kind token.
pub fn parse_kind_token(s: &[u8]) -> (r: Result<ObjectKind, ParseError>)
    ensures
        match r {
            Ok(kind) => kind_of_token(s@) == Some(kind),
            Err(e) => kind_of_token(s@) is None && e@ == ParseErrorView::UnknownKind(s@),
        },
{
    proof {
        kind_token_facts(ObjectKind::Blob);
        kind_token_facts(ObjectKind::Tree);
        kind_token_facts(ObjectKind::Commit);
        kind_token_facts(ObjectKind::Tag);
    }
    if same_bytes(s, text("blob")) {
        Ok(ObjectKind::Blob)
    } else if same_bytes(s, text("tree")) {
        Ok(ObjectKind::Tree)
    } else if same_bytes(s, text("commit")) {
        Ok(ObjectKind::Commit)
    } else if same_bytes(s, text("tag")) {
        Ok(ObjectKind::Tag)
    } else {
        Err(ParseError::UnknownKind(to_vec(s)))
    }
}

/// The loose frame of a payload: `kind ' ' size NUL payload`.
pub open spec fn frame(kind: ObjectKind, payload: Seq<u8>) -> Seq<u8> {
    ascii(kind.token()) + seq![SPACE] + decimal(payload.len()) + seq![NUL] + payload
}

/// The identity of a payload of the given kind.
pub open spec fn object_id(kind: ObjectKind, payload: Seq<u8>) -> Seq<u8> {
    sha1_digest(frame(kind, payload))
}

/// Puts a payload into its loose frame.
pub fn frame_payload(kind: ObjectKind, payload: &[u8]) -> (r: Vec<u8>)
    ensures
        r@ == frame(kind, payload@),
{
    let mut out: Vec<u8> = Vec::new();
    proof {
        kind_token_facts(kind);
    }
    push_text(&mut out, kind.as_str());
    out.push(SPACE);
    push_decimal(&mut out, payload.len());
    out.push(NUL);
    push_all(&mut out, payload);
    assert(out@ =~= frame(kind, payload@));
    out
}

/// Whether `s` is a decimal size as a frame has it: digits without leading
/// zeros, for a number that a `usize` can hold.
pub open spec fn frame_size_ok(s: Seq<u8>) -> bool {
    &&& s.len() > 0
    &&& all_digits(s)
    &&& !(s.len() > 1 && s[0] == DIGIT_ZERO)
    &&& decimal_value(s) <= usize::MAX
}

/// Reads the size field of a frame.
pub fn parse_frame_size(s: &[u8]) -> (r: Result<usize, ParseError>)
    ensures
        match r {
            Ok(n) => frame_size_ok(s@) && n == decimal_value(s@),
            Err(e) => !frame_size_ok(s@) && e is InvalidFrame,
        },
{
    if s.len() == 0 {
        return Err(ParseError::InvalidFrame);
    }
    if s.len() > 1 && s[0] == DIGIT_ZERO {
        return Err(ParseError::InvalidFrame);
    }
    match digits_value(s, usize::MAX as u64) {
        Some(n) => Ok(n as usize),
        None => Err(ParseError::InvalidFrame),
    }
}

// ---------------------------------------------------------------------
// Objects
// ---------------------------------------------------------------------

/// A Git object: one of blob, tree, commit or tag.
#[derive(Clone, Debug, PartialEq, Eq)]
pub enum Object {
    Blob(Blob),
    Tree(Tree),
    Commit(Commit),
    Tag(Tag),
}

/// What an object holds.
pub enum ObjectView {
    Blob(Seq<u8>),
    Tree(Seq<TreeEntryView>),
    Commit(CommitView),
    Tag(TagView),
}

impl View for Object {
    type V = ObjectView;

    open spec fn view(&self) -> ObjectView {
        match self {
            Object::Blob(b) => ObjectView::Blob(b.data@),
            Object::Tree(t) => ObjectView::Tree(t@),
            Object::Commit(c) => ObjectView::Commit(c@),
            Object::Tag(t) => ObjectView::Tag(t@),
        }
    }
}

impl ObjectView {
    /// The kind of the object.
    pub open spec fn kind(self) -> ObjectKind {
        match self {
            ObjectView::Blob(_) => ObjectKind::Blob,
            ObjectView::Tree(_) => ObjectKind::Tree,
            ObjectView::Commit(_) => ObjectKind::Commit,
            ObjectView::Tag(_) => ObjectKind::Tag,
        }
    }

    /// The payload that the object is written as.
    pub open spec fn payload(self) -> Seq<u8> {
        match self {
            ObjectView::Blob(data) => data,
            ObjectView::Tree(entries) => tree::tree_payload(entries),
            ObjectView::Commit(c) => commit::commit_payload(c),
            ObjectView::Tag(t) => tag::tag_payload(t),
        }
    }

    /// The loose frame of the object.
    pub open spec fn framed(self) -> Seq<u8> {
        frame(self.kind(), self.payload())
    }

    /// The identity of the object.
    pub open spec fn id(self) -> Seq<u8> {
        sha1_digest(self.framed())
    }
}

/// What a payload of the given kind holds, or why it holds nothing.
pub open spec fn payload_object(kind: ObjectKind, payload: Seq<u8>) -> Result<
    ObjectView,
    ParseErrorView,
> {
    match kind {
        ObjectKind::Blob => Ok(ObjectView::Blob(payload)),
        ObjectKind::Tree => match tree::payload_tree(payload) {
            Ok(entries) => Ok(ObjectView::Tree(entries)),
            Err(e) => Err(e),
        },
        ObjectKind::Commit => match commit::payload_commit(payload) {
            Ok(c) => Ok(ObjectView::Commit(c)),
            Err(e) => Err(e),
        },
        ObjectKind::Tag => match tag::payload_tag(payload) {
            Ok(t) => Ok(ObjectView::Tag(t)),
            Err(e) => Err(e),
        },
    }
}

/// The kind and payload of a loose frame, or what is wrong with the frame.
pub open spec fn unframe(s: Seq<u8>) -> Result<(ObjectKind, Seq<u8>), ParseErrorView> {
    let sp = upto(s, SPACE);
    let rest = s.skip(sp + 1);
    let nul = upto(rest, NUL);
    if sp == s.len() {
        Err(ParseErrorView::InvalidFrame)
    } else if kind_of_token(s.take(sp)) is None {
        Err(ParseErrorView::UnknownKind(s.take(sp)))
    } else if nul == rest.len() || !frame_size_ok(rest.take(nul)) {
        Err(ParseErrorView::InvalidFrame)
    } else if rest.len() - (nul + 1) != decimal_value(rest.take(nul)) {
        Err(ParseErrorView::InvalidSize)
    } else {
        Ok((kind_of_token(s.take(sp))->0, rest.skip(nul + 1)))
    }
}

/// The object that a loose frame holds, or why it holds none.
pub open spec fn loose_object(s: Seq<u8>) -> Result<ObjectView, ParseErrorView> {
    match unframe(s) {
        Ok((kind, payload)) => payload_object(kind, payload),
        Err(e) => Err(e),
    }
}

impl Object {
    /// Parses a loose frame.
    pub fn parse_loose(bytes: &[u8]) -> (r: Result<Object, ParseError>)
        ensures
            match r {
                Ok(o) => loose_object(bytes@) == Ok::<_, ParseErrorView>(o@),
                Err(e) => loose_object(bytes@) == Err::<ObjectView, _>(e@),
            },
    {
        let sp: usize = find(bytes, SPACE);
        if sp == bytes.len() {
            return Err(ParseError::InvalidFrame);
        }
        assert(bytes@.subrange(0, sp as int) =~= bytes@.take(sp as int));
        let kind = match parse_kind_token(&bytes[0..sp]) {
            Ok(k) => k,
            Err(e) => return Err(e),
        };
        let rest = &bytes[sp + 1..bytes.len()];
        assert(rest@ =~= bytes@.skip(sp + 1));
        let nul: usize = find(rest, NUL);
        if nul == rest.len() {
            return Err(ParseError::InvalidFrame);
        }
        assert(rest@.subrange(0, nul as int) =~= rest@.take(nul as int));
        let size: usize = match parse_frame_size(&rest[0..nul]) {
            Ok(n) => n,
            Err(e) => return Err(e),
        };
        let payload = &rest[nul + 1..rest.len()];
        assert(payload@ =~= rest@.skip(nul + 1));
        if payload.len() != size {
            return Err(ParseError::InvalidSize);
        }
        Object::parse_payload(kind, payload)
    }

    /// Parses a payload of known kind.
    pub fn parse_payload(kind: ObjectKind, payload: &[u8]) -> (r: Result<Object, ParseError>)
        ensures
            match r {
                Ok(o) => payload_object(kind, payload@) == Ok::<_, ParseErrorView>(o@),
                Err(e) => payload_object(kind, payload@) == Err::<ObjectView, _>(e@),
            },
    {
        match kind {
            ObjectKind::Blob => Ok(Object::Blob(Blob { data: to_vec(payload) })),
            ObjectKind::Tree => match tree::parse_payload(payload) {
                Ok(t) => Ok(Object::Tree(t)),
                Err(e) => Err(e),
            },
            ObjectKind::Commit => match commit::parse_payload(payload) {
                Ok(c) => Ok(Object::Commit(c)),
                Err(e) => Err(e),
            },
            ObjectKind::Tag => match tag::parse_payload(payload) {
                Ok(t) => Ok(Object::Tag(t)),
                Err(e) => Err(e),
            },
        }
    }

    /// The payload of the object, without its frame.
    pub fn payload(&self) -> (r: Vec<u8>)
        ensures
            r@ == self@.payload(),
    {
        match self {
            Object::Blob(b) => to_vec(&b.data),
            Object::Tree(t) => tree::serialize_payload(t),
            Object::Commit(c) => commit::serialize_payload(c),
            Object::Tag(t) => tag::serialize_payload(t),
        }
    }

    /// Serializes to the loose frame.
    pub fn serialize(&self) -> (r: Vec<u8>)
        ensures
            r@ == self@.framed(),
    {
        let payload = self.payload();
        frame_payload(self.kind(), &payload)
    }

    /// The identity of the object.
    pub fn id(&self) -> (r: ObjectId)
        ensures
            r@ == self@.id(),
    {
        let framed = self.serialize();
        ObjectId(sha1(&framed))
    }

    /// The kind of the object.
    pub fn kind(&self) -> (r: ObjectKind)
        ensures
            r == self@.kind(),
    {
        match self {
            Object::Blob(_) => ObjectKind::Blob,
            Object::Tree(_) => ObjectKind::Tree,
            Object::Commit(_) => ObjectKind::Commit,
            Object::Tag(_) => ObjectKind::Tag,
        }
    }
}

/// Law: taking a frame apart gives the kind and payload it was made of.
pub proof fn law_unframe_frame(kind: ObjectKind, payload: Seq<u8>)
    requires
        payload.len() <= usize::MAX,
    ensures
        unframe(frame(kind, payload)) == Ok::<_, ParseErrorView>((kind, payload)),
{
    let s = frame(kind, payload);
    let token = ascii(kind.token());
    kind_token_facts(kind);
    decimal_round_trip(payload.len());
    assert forall|j: int| 0 <= j < token.len() implies s[j] != SPACE by {
        assert(s[j] == token[j]);
    }
    upto_is(s, SPACE, token.len() as int);
    let sp = upto(s, SPACE);
    assert(s.take(sp) =~= token);
    let rest = s.skip(sp + 1);
    let size = decimal(payload.len());
    assert(rest =~= size + seq![NUL] + payload);
    assert forall|j: int| 0 <= j < size.len() implies rest[j] != NUL by {
        assert(rest[j] == size[j]);
    }
    upto_is(rest, NUL, size.len() as int);
    assert(rest.take(size.len() as int) =~= size);
    assert(rest.skip(size.len() as int + 1) =~= payload);
}

/// Law: a payload parsed from its frame is the payload parsed alone.
pub proof fn law_loose_is_payload(kind: ObjectKind, payload: Seq<u8>)
    requires
        payload.len() <= usize::MAX,
    ensures
        loose_object(frame(kind, payload)) == payload_object(kind, payload),
{
    law_unframe_frame(kind, payload);
}

/// Law: a frame that can be taken apart is the frame of what it was taken
/// apart into, so no two frames hold the same object payload.
pub proof fn law_frame_unframe(s: Seq<u8>)
    requires
        unframe(s) is Ok,
    ensures
        s == frame(unframe(s)->Ok_0.0, unframe(s)->Ok_0.1),
{
    let sp = upto(s, SPACE);
    upto_spec(s, SPACE);
    let kind = kind_of_token(s.take(sp))->0;
    let rest = s.skip(sp + 1);
    let nul = upto(rest, NUL);
    upto_spec(rest, NUL);
    let size = rest.take(nul);
    let payload = rest.skip(nul + 1);
    assert(s =~= s.take(sp) + seq![SPACE] + rest);
    assert(rest =~= size + seq![NUL] + payload);
    decimal_canonical(size);
    assert(s =~= frame(kind, payload));
}

/// A digit string without leading zeros is the notation of its value.
pub proof fn decimal_canonical(s: Seq<u8>)
    requires
        s.len() > 0,
        all_digits(s),
        !(s.len() > 1 && s[0] == DIGIT_ZERO),
    ensures
        decimal(decimal_value(s)) == s,
        s.len() > 1 ==> decimal_value(s) >= 10,
    decreases s.len(),
{
    reveal_with_fuel(decimal_value, 2);
    let t = s.drop_last();
    let d = (s.last() - 48) as nat;
    assert(all_digits(seq![s[s.len() - 1]])) by {
        assert(crate::notation::is_digit(s[s.len() - 1]));
    }
    assert(crate::notation::is_digit(s[s.len() - 1]));
    if s.len() == 1 {
        assert(t.len() == 0);
        assert(s =~= seq![s[0]]);
    } else {
        assert(all_digits(t)) by {
            assert forall|i: int| 0 <= i < t.len() implies crate::notation::is_digit(
                #[trigger] t[i],
            ) by {
                assert(crate::notation::is_digit(s[i]));
            }
        }
        decimal_canonical(t);
        let v = decimal_value(t);
        if t.len() == 1 {
            assert(crate::notation::is_digit(t[0]));
            assert(t.drop_last().len() == 0);
            assert(v == (t[0] - 48) as nat);
        }
        assert(v >= 1);
        assert(decimal_value(s) == v * 10 + d);
        assert((v * 10 + d) / 10 == v && (v * 10 + d) % 10 == d);
        assert(s =~= t.push(s.last()));
    }
}

// ---------------------------------------------------------------------
// Errors
// ---------------------------------------------------------------------

/// Errors of the object parsers.
#[derive(Clone, Debug, PartialEq, Eq)]
pub enum ParseError {
    /// Structurally broken loose frame: missing space between kind and
    /// size, missing NUL between size and payload, or a size field with
    /// leading zeros.
    InvalidFrame,
    /// The declared size is not the payload's length.
    InvalidSize,
    /// The kind token is not `blob`, `tree`, `commit` or `tag`.
    UnknownKind(Vec<u8>),
    /// A tree entry has no space, no NUL behind its name, an empty name or
    /// a `/` in its name.
    InvalidTreeEntry,
    /// A tree entry's mode is not a recognized octal value.
    InvalidMode(Vec<u8>),
    /// A commit or tag lacks a required header or the blank line.
    MissingHeader(&'static str),
    /// A signature line without any space.
    InvalidSignature,
    /// Not 40 hexadecimal digits.
    InvalidHex,
    /// The input ends inside a structure.
    Truncated,
}

/// What a [`ParseError`] says.
pub enum ParseErrorView {
    InvalidFrame,
    InvalidSize,
    UnknownKind(Seq<u8>),
    InvalidTreeEntry,
    InvalidMode(Seq<u8>),
    MissingHeader(Seq<char>),
    InvalidSignature,
    InvalidHex,
    Truncated,
}

impl View for ParseError {
    type V = ParseErrorView;

    open spec fn view(&self) -> ParseErrorView {
        match self {
            ParseError::InvalidFrame => ParseErrorView::InvalidFrame,
            ParseError::InvalidSize => ParseErrorView::InvalidSize,
            ParseError::UnknownKind(k) => ParseErrorView::UnknownKind(k@),
            ParseError::InvalidTreeEntry => ParseErrorView::InvalidTreeEntry,
            ParseError::InvalidMode(m) => ParseErrorView::InvalidMode(m@),
            ParseError::MissingHeader(h) => ParseErrorView::MissingHeader(h@),
            ParseError::InvalidSignature => ParseErrorView::InvalidSignature,
            ParseError::InvalidHex => ParseErrorView::InvalidHex,
            ParseError::Truncated => ParseErrorView::Truncated,
        }
    }
}

} // verus!
