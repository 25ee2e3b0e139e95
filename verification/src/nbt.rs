use byteorder::{BigEndian, ByteOrder};
use vstd::prelude::*;
use vstd::slice::{slice_subrange, slice_to_vec};
use vstd::utf8::{decode_utf8, valid_utf8};

verus! {

/// Why a stretch of bytes is no tag tree, or a tag tree no chunk.
#[derive(Clone, Copy, Debug, PartialEq, Eq)]
pub enum NbtError {
    /// The bytes end before the value does.
    UnexpectedEof,
    /// A tag id that is none of the twelve kinds.
    InvalidTagId(u8),
    /// A name or a string that is not UTF-8.
    BadString,
    /// A tag of another kind than the one asked for.
    WrongTag,
    /// A compound without a child that it has to have.
    MissingTag,
    /// A palette entry that stands for no block type.
    UnknownBlock,
    /// An array that is too short, or a number too large for its use.
    BadLength,
    /// Bytes that do not decompress.
    BadCompression,
}

impl NbtError {
    /// Whether the error tells of malformed data rather than of data that
    /// ends too early.
    pub open spec fn spec_is_format_error(&self) -> bool {
        *self != NbtError::UnexpectedEof
    }

    /// Whether the error tells of malformed data rather than of data that
    /// ends too early.
    pub fn is_format_error(&self) -> (r: bool)
        ensures
            r == self.spec_is_format_error(),
    {
        match self {
            NbtError::UnexpectedEof => false,
            _ => true,
        }
    }
}

/// A decoded tag. `Float` and `Double` hold the bits of the IEEE 754 number;
/// `Compound` holds its named children in the order of the bytes, and where
/// a name comes twice the later child is the one that counts.
#[derive(Debug)]
pub enum Tag {
    Byte(u8),
    Short(u16),
    Int(u32),
    Long(u64),
    Float(u32),
    Double(u64),
    ByteArray(Vec<u8>),
    String(String),
    List(Vec<Tag>),
    Compound(Vec<(String, Tag)>),
    IntArray(Vec<u32>),
    LongArray(Vec<u64>),
}

/// The mathematical value of a `Tag`.
pub ghost enum TagTree {
    Byte(u8),
    Short(u16),
    Int(u32),
    Long(u64),
    Float(u32),
    Double(u64),
    ByteArray(Seq<u8>),
    String(Seq<char>),
    List(Seq<TagTree>),
    Compound(Seq<(Seq<char>, TagTree)>),
    IntArray(Seq<u32>),
    LongArray(Seq<u64>),
}

/// The value of `tag`.
pub open spec fn tag_tree(tag: Tag) -> TagTree
    decreases tag,
{
    match tag {
        Tag::Byte(v) => TagTree::Byte(v),
        Tag::Short(v) => TagTree::Short(v),
        Tag::Int(v) => TagTree::Int(v),
        Tag::Long(v) => TagTree::Long(v),
        Tag::Float(v) => TagTree::Float(v),
        Tag::Double(v) => TagTree::Double(v),
        Tag::ByteArray(v) => TagTree::ByteArray(v@),
        Tag::String(v) => TagTree::String(v@),
        Tag::List(v) => TagTree::List(
            Seq::new(
                v.len() as nat,
                |i: int|
                    if 0 <= i < v.len() {
                        tag_tree(v[i])
                    } else {
                        TagTree::Byte(0)
                    },
            ),
        ),
        Tag::Compound(v) => TagTree::Compound(
            Seq::new(
                v.len() as nat,
                |i: int|
                    if 0 <= i < v.len() {
                        (v[i].0@, tag_tree(v[i].1))
                    } else {
                        (Seq::empty(), TagTree::Byte(0))
                    },
            ),
        ),
        Tag::IntArray(v) => TagTree::IntArray(v@),
        Tag::LongArray(v) => TagTree::LongArray(v@),
    }
}

impl View for Tag {
    type V = TagTree;

    open spec fn view(&self) -> TagTree {
        tag_tree(*self)
    }
}

/// The values of the tags of `tags`, one for one.
pub open spec fn tag_views(tags: Seq<Tag>) -> Seq<TagTree> {
    Seq::new(tags.len(), |i: int| tags[i]@)
}

/// The names and values of the children of `entries`, one for one.
pub open spec fn entry_views(entries: Seq<(String, Tag)>) -> Seq<(Seq<char>, TagTree)> {
    Seq::new(entries.len(), |i: int| (entries[i].0@, entries[i].1@))
}

/// The child of a compound that the name `name` stands for: the last one of
/// that name.
pub open spec fn spec_compound_get(entries: Seq<(Seq<char>, TagTree)>, name: Seq<char>) -> Option<
    TagTree,
>
    decreases entries.len(),
{
    if entries.len() == 0 {
        None
    } else if entries.last().0 == name {
        Some(entries.last().1)
    } else {
        spec_compound_get(entries.drop_last(), name)
    }
}

/// The number that the two bytes from `pos` on hold, the high byte first.
pub open spec fn spec_be_u16(bytes: Seq<u8>, pos: int) -> u16 {
    (bytes[pos] as int * 0x100 + bytes[pos + 1] as int) as u16
}

/// The number that the four bytes from `pos` on hold, the high byte first.
pub open spec fn spec_be_u32(bytes: Seq<u8>, pos: int) -> u32 {
    (bytes[pos] as int * 0x100_0000 + bytes[pos + 1] as int * 0x1_0000 + bytes[pos + 2] as int
        * 0x100 + bytes[pos + 3] as int) as u32
}

/// The number that the eight bytes from `pos` on hold, the high byte first.
pub open spec fn spec_be_u64(bytes: Seq<u8>, pos: int) -> u64 {
    (spec_be_u32(bytes, pos) as int * 0x1_0000_0000 + spec_be_u32(bytes, pos + 4) as int) as u64
}

/// `byteorder::BigEndian::read_u16`: the first two bytes as a number, the
/// high byte first.
#[verifier::external_body]
fn be_read_u16(buf: &[u8]) -> (r: u16)
    requires
        buf@.len() >= 2,
    ensures
        r == spec_be_u16(buf@, 0),
{
    BigEndian::read_u16(buf)
}

/// `byteorder::BigEndian::read_u32`: the first four bytes as a number, the
/// high byte first.
#[verifier::external_body]
fn be_read_u32(buf: &[u8]) -> (r: u32)
    requires
        buf@.len() >= 4,
    ensures
        r == spec_be_u32(buf@, 0),
{
    BigEndian::read_u32(buf)
}

/// `byteorder::BigEndian::read_u64`: the first eight bytes as a number, the
/// high byte first.
#[verifier::external_body]
fn be_read_u64(buf: &[u8]) -> (r: u64)
    requires
        buf@.len() >= 8,
    ensures
        r == spec_be_u64(buf@, 0),
{
    BigEndian::read_u64(buf)
}

/// `String::from_utf8`: the text that the bytes encode, where they are
/// UTF-8, and nothing where they are not.
#[verifier::external_body]
fn string_from_utf8(bytes: Vec<u8>) -> (r: Option<String>)
    ensures
        r is Some <==> valid_utf8(bytes@),
        r matches Some(s) ==> s@ == decode_utf8(bytes@),
{
    String::from_utf8(bytes).ok()
}

/// The big-endian 32-bit number at `pos` of `bytes`.
pub fn read_u32_at(bytes: &[u8], pos: usize) -> (r: Result<u32, NbtError>)
    ensures
        match spec_read_u32(bytes@, pos as int) {
            Ok((v, _)) => r == Ok::<u32, NbtError>(v),
            Err(e) => r == Err::<u32, NbtError>(e),
        },
{
    if bytes.len() < 4 || pos > bytes.len() - 4 {
        return Err(NbtError::UnexpectedEof);
    }
    Ok(be_read_u32(slice_subrange(bytes, pos, pos + 4)))
}

/// One byte at `pos`, and the position behind it.
pub open spec fn spec_read_u8(bytes: Seq<u8>, pos: int) -> Result<(u8, int), NbtError> {
    if 0 <= pos && pos + 1 <= bytes.len() {
        Ok((bytes[pos], pos + 1))
    } else {
        Err(NbtError::UnexpectedEof)
    }
}

/// A big-endian 16-bit number at `pos`, and the position behind it.
pub open spec fn spec_read_u16(bytes: Seq<u8>, pos: int) -> Result<(u16, int), NbtError> {
    if 0 <= pos && pos + 2 <= bytes.len() {
        Ok((spec_be_u16(bytes, pos), pos + 2))
    } else {
        Err(NbtError::UnexpectedEof)
    }
}

/// A big-endian 32-bit number at `pos`, and the position behind it.
pub open spec fn spec_read_u32(bytes: Seq<u8>, pos: int) -> Result<(u32, int), NbtError> {
    if 0 <= pos && pos + 4 <= bytes.len() {
        Ok((spec_be_u32(bytes, pos), pos + 4))
    } else {
        Err(NbtError::UnexpectedEof)
    }
}

/// A big-endian 64-bit number at `pos`, and the position behind it.
pub open spec fn spec_read_u64(bytes: Seq<u8>, pos: int) -> Result<(u64, int), NbtError> {
    if 0 <= pos && pos + 8 <= bytes.len() {
        Ok((spec_be_u64(bytes, pos), pos + 8))
    } else {
        Err(NbtError::UnexpectedEof)
    }
}

/// The `len` bytes from `pos` on, and the position behind them.
pub open spec fn spec_read_bytes(bytes: Seq<u8>, pos: int, len: int) -> Result<
    (Seq<u8>, int),
    NbtError,
> {
    if 0 <= pos && 0 <= len && pos + len <= bytes.len() {
        Ok((bytes.subrange(pos, pos + len), pos + len))
    } else {
        Err(NbtError::UnexpectedEof)
    }
}

/// A text at `pos`: a 16-bit length, then that many bytes of UTF-8.
pub open spec fn spec_read_string(bytes: Seq<u8>, pos: int) -> Result<(Seq<char>, int), NbtError> {
    match spec_read_u16(bytes, pos) {
        Err(e) => Err(e),
        Ok((len, start)) => if len == 0 {
            Ok((Seq::empty(), start))
        } else {
            match spec_read_bytes(bytes, start, len as int) {
                Err(e) => Err(e),
                Ok((raw, next)) => if valid_utf8(raw) {
                    Ok((decode_utf8(raw), next))
                } else {
                    Err(NbtError::BadString)
                },
            }
        },
    }
}

/// A tag header at `pos`: the id of the tag's kind and, unless the id is 0,
/// the tag's name. Id 0 ends a compound and has no name.
pub open spec fn spec_tag_header(bytes: Seq<u8>, pos: int) -> Result<
    ((u8, Seq<char>), int),
    NbtError,
> {
    match spec_read_u8(bytes, pos) {
        Err(e) => Err(e),
        Ok((id, start)) => if id == 0 {
            Ok(((id, Seq::empty()), start))
        } else {
            match spec_read_string(bytes, start) {
                Err(e) => Err(e),
                Ok((name, next)) => Ok(((id, name), next)),
            }
        },
    }
}

/// A cursor over bytes held in memory.
pub struct Reader {
    data: Vec<u8>,
    pos: usize,
}

impl Reader {
    #[verifier::type_invariant]
    spec fn inv(self) -> bool {
        self.pos <= self.data.len()
    }

    /// All the bytes, those already read included.
    pub closed spec fn bytes(&self) -> Seq<u8> {
        self.data@
    }

    /// How many bytes have been read.
    pub closed spec fn position(&self) -> int {
        self.pos as int
    }

    pub fn new(data: Vec<u8>) -> (r: Reader)
        ensures
            r.bytes() == data@,
            r.position() == 0,
    {
        Reader { data, pos: 0 }
    }

    /// How many bytes are left to read.
    pub fn remaining(&self) -> (n: usize)
        ensures
            n == self.bytes().len() - self.position(),
            0 <= self.position() <= self.bytes().len(),
    {
        proof {
            use_type_invariant(self);
        }
        self.data.len() - self.pos
    }

    pub fn read_u8(&mut self) -> (r: Result<u8, NbtError>)
        ensures
            final(self).bytes() == old(self).bytes(),
            match spec_read_u8(old(self).bytes(), old(self).position()) {
                Ok((v, next)) => r == Ok::<u8, NbtError>(v) && final(self).position() == next,
                Err(e) => r == Err::<u8, NbtError>(e) && final(self).position() == old(self).position(),
            },
    {
        proof {
            use_type_invariant(&*self);
        }
        if self.data.len() - self.pos < 1 {
            return Err(NbtError::UnexpectedEof);
        }
        let v: u8 = self.data[self.pos];
        self.pos = self.pos + 1;
        Ok(v)
    }

    pub fn read_u16(&mut self) -> (r: Result<u16, NbtError>)
        ensures
            final(self).bytes() == old(self).bytes(),
            match spec_read_u16(old(self).bytes(), old(self).position()) {
                Ok((v, next)) => r == Ok::<u16, NbtError>(v) && final(self).position() == next,
                Err(e) => r == Err::<u16, NbtError>(e) && final(self).position() == old(self).position(),
            },
    {
        proof {
            use_type_invariant(&*self);
        }
        if self.data.len() - self.pos < 2 {
            return Err(NbtError::UnexpectedEof);
        }
        let v: u16 = be_read_u16(slice_subrange(self.data.as_slice(), self.pos, self.pos + 2));
        self.pos = self.pos + 2;
        Ok(v)
    }

    pub fn read_u32(&mut self) -> (r: Result<u32, NbtError>)
        ensures
            final(self).bytes() == old(self).bytes(),
            match spec_read_u32(old(self).bytes(), old(self).position()) {
                Ok((v, next)) => r == Ok::<u32, NbtError>(v) && final(self).position() == next,
                Err(e) => r == Err::<u32, NbtError>(e) && final(self).position() == old(self).position(),
            },
    {
        proof {
            use_type_invariant(&*self);
        }
        if self.data.len() - self.pos < 4 {
            return Err(NbtError::UnexpectedEof);
        }
        let v: u32 = be_read_u32(slice_subrange(self.data.as_slice(), self.pos, self.pos + 4));
        self.pos = self.pos + 4;
        Ok(v)
    }

    pub fn read_u64(&mut self) -> (r: Result<u64, NbtError>)
        ensures
            final(self).bytes() == old(self).bytes(),
            match spec_read_u64(old(self).bytes(), old(self).position()) {
                Ok((v, next)) => r == Ok::<u64, NbtError>(v) && final(self).position() == next,
                Err(e) => r == Err::<u64, NbtError>(e) && final(self).position() == old(self).position(),
            },
    {
        proof {
            use_type_invariant(&*self);
        }
        if self.data.len() - self.pos < 8 {
            return Err(NbtError::UnexpectedEof);
        }
        let v: u64 = be_read_u64(slice_subrange(self.data.as_slice(), self.pos, self.pos + 8));
        self.pos = self.pos + 8;
        Ok(v)
    }

    /// Reads the next `len` bytes.
    pub fn read_bytes(&mut self, len: usize) -> (r: Result<Vec<u8>, NbtError>)
        ensures
            final(self).bytes() == old(self).bytes(),
            match spec_read_bytes(old(self).bytes(), old(self).position(), len as int) {
                Ok((v, next)) => r matches Ok(out) && out@ == v && final(self).position() == next,
                Err(e) => r == Err::<Vec<u8>, NbtError>(e) && final(self).position() == old(self).position(),
            },
    {
        proof {
            use_type_invariant(&*self);
        }
        if self.data.len() - self.pos < len {
            return Err(NbtError::UnexpectedEof);
        }
        let out: Vec<u8> = slice_to_vec(
            slice_subrange(self.data.as_slice(), self.pos, self.pos + len),
        );
        self.pos = self.pos + len;
        Ok(out)
    }

    /// Where the cursor stands.
    fn mark(&self) -> (at: usize)
        ensures
            at == self.position(),
            at <= self.bytes().len(),
    {
        proof {
            use_type_invariant(self);
        }
        self.pos
    }

    /// Puts the cursor at `at`.
    fn rewind(&mut self, at: usize)
        requires
            at <= old(self).bytes().len(),
        ensures
            final(self).bytes() == old(self).bytes(),
            final(self).position() == at,
    {
        self.pos = at;
    }

    /// Passes over the next `len` bytes.
    pub fn skip(&mut self, len: usize) -> (r: Result<(), NbtError>)
        ensures
            final(self).bytes() == old(self).bytes(),
            match spec_read_bytes(old(self).bytes(), old(self).position(), len as int) {
                Ok((v, next)) => r == Ok::<(), NbtError>(()) && final(self).position() == next,
                Err(e) => r == Err::<(), NbtError>(e) && final(self).position() == old(self).position(),
            },
    {
        proof {
            use_type_invariant(&*self);
        }
        if self.data.len() - self.pos < len {
            return Err(NbtError::UnexpectedEof);
        }
        self.pos = self.pos + len;
        Ok(())
    }
}

fn read_string(reader: &mut Reader) -> (r: Result<String, NbtError>)
    ensures
        final(reader).bytes() == old(reader).bytes(),
        final(reader).position() >= old(reader).position(),
        match spec_read_string(old(reader).bytes(), old(reader).position()) {
            Ok((v, next)) => r matches Ok(s) && s@ == v && final(reader).position() == next,
            Err(e) => r == Err::<String, NbtError>(e),
        },
{
    let len: usize = reader.read_u16()? as usize;
    if len == 0 {
        return Ok(String::new());
    }
    let bytes: Vec<u8> = reader.read_bytes(len)?;
    match string_from_utf8(bytes) {
        Some(s) => Ok(s),
        None => Err(NbtError::BadString),
    }
}

/// Reads the header of the tag at the cursor: the id of its kind and its
/// name. Id 0 ends a compound and has no name. Where the header cannot be
/// read, the cursor stays where it was.
pub fn read_tag_header(reader: &mut Reader) -> (r: Result<(u8, String), NbtError>)
    ensures
        final(reader).bytes() == old(reader).bytes(),
        final(reader).position() >= old(reader).position(),
        match spec_tag_header(old(reader).bytes(), old(reader).position()) {
            Ok(((id, name), next)) => r matches Ok(h) && h.0 == id && h.1@ == name
                && final(reader).position() == next && next > old(reader).position(),
            Err(e) => r == Err::<(u8, String), NbtError>(e) && final(reader).position() == old(
                reader,
            ).position(),
        },
{
    let start: usize = reader.mark();
    let id: u8 = reader.read_u8()?;
    if id == 0 {
        return Ok((id, String::new()));
    }
    match read_string(reader) {
        Ok(name) => Ok((id, name)),
        Err(e) => {
            reader.rewind(start);
            Err(e)
        },
    }
}

/// The views of the texts of `names`, one for one.
pub open spec fn string_views(names: Seq<String>) -> Seq<Seq<char>> {
    Seq::new(names.len(), |i: int| names[i]@)
}

/// The views of the texts of `names`, one for one.
pub open spec fn str_views(names: Seq<&str>) -> Seq<Seq<char>> {
    Seq::new(names.len(), |i: int| names[i]@)
}

/// Whether a child of the name `name` is one of those asked for: any child
/// where nothing is asked for, else one whose name is in the list.
pub open spec fn name_wanted(wanted: Option<Seq<Seq<char>>>, name: Seq<char>) -> bool {
    match wanted {
        None => true,
        Some(names) => names.contains(name),
    }
}

/// The position behind `len` bytes from `pos` on.
pub open spec fn spec_skip_bytes(bytes: Seq<u8>, pos: int, len: int) -> Result<int, NbtError> {
    match spec_read_bytes(bytes, pos, len) {
        Err(e) => Err(e),
        Ok((_, next)) => Ok(next),
    }
}

/// The position behind the payload of a tag of kind `id` that starts at
/// `pos`. The bytes of a string are passed over as they are.
pub open spec fn spec_skip_payload(bytes: Seq<u8>, pos: int, id: u8) -> Result<int, NbtError>
    decreases bytes.len() - pos, 1int, 0int,
{
    if pos < 0 || pos > bytes.len() {
        Err(NbtError::UnexpectedEof)
    } else if id == 1 {
        spec_skip_bytes(bytes, pos, 1)
    } else if id == 2 {
        spec_skip_bytes(bytes, pos, 2)
    } else if id == 3 || id == 5 {
        spec_skip_bytes(bytes, pos, 4)
    } else if id == 4 || id == 6 {
        spec_skip_bytes(bytes, pos, 8)
    } else if id == 7 {
        match spec_read_u32(bytes, pos) {
            Err(e) => Err(e),
            Ok((len, start)) => spec_skip_bytes(bytes, start, len as int),
        }
    } else if id == 8 {
        match spec_read_u16(bytes, pos) {
            Err(e) => Err(e),
            Ok((len, start)) => spec_skip_bytes(bytes, start, len as int),
        }
    } else if id == 9 {
        match spec_read_u8(bytes, pos) {
            Err(e) => Err(e),
            Ok((sub_id, at_len)) => match spec_read_u32(bytes, at_len) {
                Err(e) => Err(e),
                Ok((len, start)) => spec_skip_list(bytes, start, sub_id, len as int),
            },
        }
    } else if id == 10 {
        spec_skip_compound(bytes, pos)
    } else if id == 11 {
        match spec_read_u32(bytes, pos) {
            Err(e) => Err(e),
            Ok((len, start)) => spec_skip_bytes(bytes, start, 4 * len as int),
        }
    } else if id == 12 {
        match spec_read_u32(bytes, pos) {
            Err(e) => Err(e),
            Ok((len, start)) => spec_skip_bytes(bytes, start, 8 * len as int),
        }
    } else {
        Err(NbtError::InvalidTagId(id))
    }
}

/// The position behind `count` payloads of kind `id` in a row.
pub open spec fn spec_skip_list(bytes: Seq<u8>, pos: int, id: u8, count: int) -> Result<
    int,
    NbtError,
>
    decreases bytes.len() - pos, 2int, count,
{
    if count <= 0 {
        Ok(pos)
    } else {
        match spec_skip_payload(bytes, pos, id) {
            Err(e) => Err(e),
            Ok(next) => if pos < next <= bytes.len() {
                spec_skip_list(bytes, next, id, count - 1)
            } else {
                Err(NbtError::UnexpectedEof)
            },
        }
    }
}

/// The position behind the children of a compound and the header that ends
/// it.
pub open spec fn spec_skip_compound(bytes: Seq<u8>, pos: int) -> Result<int, NbtError>
    decreases bytes.len() - pos, 0int, 0int,
{
    match spec_tag_header(bytes, pos) {
        Err(e) => Err(e),
        Ok(((id, _), start)) => if id == 0 {
            Ok(start)
        } else if pos < start <= bytes.len() {
            match spec_skip_payload(bytes, start, id) {
                Err(e) => Err(e),
                Ok(next) => if start <= next <= bytes.len() {
                    spec_skip_compound(bytes, next)
                } else {
                    Err(NbtError::UnexpectedEof)
                },
            }
        } else {
            Err(NbtError::UnexpectedEof)
        },
    }
}

/// The 32-bit numbers of an array of `len` of them that starts at `pos`.
pub open spec fn spec_int_array(bytes: Seq<u8>, pos: int, len: int) -> Seq<u32> {
    Seq::new(len as nat, |i: int| spec_be_u32(bytes, pos + 4 * i))
}

/// The 64-bit numbers of an array of `len` of them that starts at `pos`.
pub open spec fn spec_long_array(bytes: Seq<u8>, pos: int, len: int) -> Seq<u64> {
    Seq::new(len as nat, |i: int| spec_be_u64(bytes, pos + 8 * i))
}

/// The tag of kind `id` whose payload starts at `pos`, and the position
/// behind it. Numbers are big-endian; a byte array and the arrays of numbers
/// have a 32-bit count in front, a string a 16-bit length; a list has the id
/// of its items' kind and a 32-bit count in front; a compound is a row of
/// named tags that a header of id 0 ends.
pub open spec fn spec_tag_payload(bytes: Seq<u8>, pos: int, id: u8) -> Result<
    (TagTree, int),
    NbtError,
>
    decreases bytes.len() - pos, 1int, 0int,
{
    if pos < 0 || pos > bytes.len() {
        Err(NbtError::UnexpectedEof)
    } else if id == 1 {
        match spec_read_u8(bytes, pos) {
            Err(e) => Err(e),
            Ok((v, next)) => Ok((TagTree::Byte(v), next)),
        }
    } else if id == 2 {
        match spec_read_u16(bytes, pos) {
            Err(e) => Err(e),
            Ok((v, next)) => Ok((TagTree::Short(v), next)),
        }
    } else if id == 3 {
        match spec_read_u32(bytes, pos) {
            Err(e) => Err(e),
            Ok((v, next)) => Ok((TagTree::Int(v), next)),
        }
    } else if id == 4 {
        match spec_read_u64(bytes, pos) {
            Err(e) => Err(e),
            Ok((v, next)) => Ok((TagTree::Long(v), next)),
        }
    } else if id == 5 {
        match spec_read_u32(bytes, pos) {
            Err(e) => Err(e),
            Ok((v, next)) => Ok((TagTree::Float(v), next)),
        }
    } else if id == 6 {
        match spec_read_u64(bytes, pos) {
            Err(e) => Err(e),
            Ok((v, next)) => Ok((TagTree::Double(v), next)),
        }
    } else if id == 7 {
        match spec_read_u32(bytes, pos) {
            Err(e) => Err(e),
            Ok((len, start)) => match spec_read_bytes(bytes, start, len as int) {
                Err(e) => Err(e),
                Ok((v, next)) => Ok((TagTree::ByteArray(v), next)),
            },
        }
    } else if id == 8 {
        match spec_read_string(bytes, pos) {
            Err(e) => Err(e),
            Ok((v, next)) => Ok((TagTree::String(v), next)),
        }
    } else if id == 9 {
        match spec_read_u8(bytes, pos) {
            Err(e) => Err(e),
            Ok((sub_id, at_len)) => match spec_read_u32(bytes, at_len) {
                Err(e) => Err(e),
                Ok((len, start)) => match spec_list_items(bytes, start, sub_id, len as int) {
                    Err(e) => Err(e),
                    Ok((items, next)) => Ok((TagTree::List(items), next)),
                },
            },
        }
    } else if id == 10 {
        match spec_compound_items(bytes, pos, None) {
            Err(e) => Err(e),
            Ok((entries, next)) => Ok((TagTree::Compound(entries), next)),
        }
    } else if id == 11 {
        match spec_read_u32(bytes, pos) {
            Err(e) => Err(e),
            Ok((len, start)) => match spec_skip_bytes(bytes, start, 4 * len as int) {
                Err(e) => Err(e),
                Ok(next) => Ok((TagTree::IntArray(spec_int_array(bytes, start, len as int)), next)),
            },
        }
    } else if id == 12 {
        match spec_read_u32(bytes, pos) {
            Err(e) => Err(e),
            Ok((len, start)) => match spec_skip_bytes(bytes, start, 8 * len as int) {
                Err(e) => Err(e),
                Ok(next) => Ok(
                    (TagTree::LongArray(spec_long_array(bytes, start, len as int)), next),
                ),
            },
        }
    } else {
        Err(NbtError::InvalidTagId(id))
    }
}

/// `count` tags of kind `id` in a row from `pos` on, and the position behind
/// them.
pub open spec fn spec_list_items(bytes: Seq<u8>, pos: int, id: u8, count: int) -> Result<
    (Seq<TagTree>, int),
    NbtError,
>
    decreases bytes.len() - pos, 2int, count,
{
    if count <= 0 {
        Ok((Seq::empty(), pos))
    } else {
        match spec_tag_payload(bytes, pos, id) {
            Err(e) => Err(e),
            Ok((item, next)) => if pos < next <= bytes.len() {
                match spec_list_items(bytes, next, id, count - 1) {
                    Err(e) => Err(e),
                    Ok((rest, end)) => Ok((seq![item] + rest, end)),
                }
            } else {
                Err(NbtError::UnexpectedEof)
            },
        }
    }
}

/// The children of the compound whose first header is at `pos`, up to the
/// header that ends it, and the position behind that header. Where names are
/// asked for, the children of other names are passed over.
pub open spec fn spec_compound_items(
    bytes: Seq<u8>,
    pos: int,
    wanted: Option<Seq<Seq<char>>>,
) -> Result<(Seq<(Seq<char>, TagTree)>, int), NbtError>
    decreases bytes.len() - pos, 0int, 0int,
{
    match spec_tag_header(bytes, pos) {
        Err(e) => Err(e),
        Ok(((id, name), start)) => if id == 0 {
            Ok((Seq::empty(), start))
        } else if !(pos < start <= bytes.len()) {
            Err(NbtError::UnexpectedEof)
        } else if name_wanted(wanted, name) {
            match spec_tag_payload(bytes, start, id) {
                Err(e) => Err(e),
                Ok((value, next)) => if start <= next <= bytes.len() {
                    match spec_compound_items(bytes, next, wanted) {
                        Err(e) => Err(e),
                        Ok((rest, end)) => Ok((seq![(name, value)] + rest, end)),
                    }
                } else {
                    Err(NbtError::UnexpectedEof)
                },
            }
        } else {
            match spec_skip_payload(bytes, start, id) {
                Err(e) => Err(e),
                Ok(next) => if start <= next <= bytes.len() {
                    spec_compound_items(bytes, next, wanted)
                } else {
                    Err(NbtError::UnexpectedEof)
                },
            }
        },
    }
}

/// The header of the first child, from `pos` on, whose name is one of
/// `names`, and the position behind that header; no header where the compound
/// ends first, with the position behind its end. The children in front are
/// passed over. An id above 12 is refused.
pub open spec fn spec_seek(bytes: Seq<u8>, pos: int, names: Seq<Seq<char>>) -> Result<
    (Option<(u8, Seq<char>)>, int),
    NbtError,
>
    decreases bytes.len() - pos,
{
    match spec_tag_header(bytes, pos) {
        Err(e) => Err(e),
        Ok(((id, name), start)) => if id == 0 {
            Ok((None, start))
        } else if id > 12 {
            Err(NbtError::InvalidTagId(id))
        } else if names.contains(name) {
            Ok((Some((id, name)), start))
        } else {
            match spec_skip_payload(bytes, start, id) {
                Err(e) => Err(e),
                Ok(next) => if pos < next <= bytes.len() {
                    spec_seek(bytes, next, names)
                } else {
                    Err(NbtError::UnexpectedEof)
                },
            }
        },
    }
}

/// The count of a list whose payload starts at `pos`: the byte of the items'
/// kind is passed over.
pub open spec fn spec_list_length(bytes: Seq<u8>, pos: int) -> Result<(int, int), NbtError> {
    match spec_read_u8(bytes, pos) {
        Err(e) => Err(e),
        Ok((_, at_len)) => match spec_read_u32(bytes, at_len) {
            Err(e) => Err(e),
            Ok((len, next)) => Ok((len as int, next)),
        },
    }
}

impl Tag {
    pub fn to_u8(&self) -> (r: Result<&u8, NbtError>)
        ensures
            match self {
                Tag::Byte(v) => r == Ok::<&u8, NbtError>(v),
                _ => r == Err::<&u8, NbtError>(NbtError::WrongTag),
            },
    {
        match self {
            Tag::Byte(byte) => Ok(byte),
            _ => Err(NbtError::WrongTag),
        }
    }

    pub fn to_u8_array(&self) -> (r: Result<&Vec<u8>, NbtError>)
        ensures
            match self {
                Tag::ByteArray(v) => r == Ok::<&Vec<u8>, NbtError>(v),
                _ => r == Err::<&Vec<u8>, NbtError>(NbtError::WrongTag),
            },
    {
        match self {
            Tag::ByteArray(array) => Ok(array),
            _ => Err(NbtError::WrongTag),
        }
    }

    pub fn to_u32(&self) -> (r: Result<&u32, NbtError>)
        ensures
            match self {
                Tag::Int(v) => r == Ok::<&u32, NbtError>(v),
                _ => r == Err::<&u32, NbtError>(NbtError::WrongTag),
            },
    {
        match self {
            Tag::Int(value) => Ok(value),
            _ => Err(NbtError::WrongTag),
        }
    }

    pub fn to_str(&self) -> (r: Result<&str, NbtError>)
        ensures
            match self {
                Tag::String(v) => r matches Ok(s) && s@ == v@,
                _ => r == Err::<&str, NbtError>(NbtError::WrongTag),
            },
    {
        match self {
            Tag::String(string) => Ok(string.as_str()),
            _ => Err(NbtError::WrongTag),
        }
    }

    pub fn to_list(&self) -> (r: Result<&Vec<Tag>, NbtError>)
        ensures
            match self {
                Tag::List(v) => r == Ok::<&Vec<Tag>, NbtError>(v),
                _ => r == Err::<&Vec<Tag>, NbtError>(NbtError::WrongTag),
            },
    {
        match self {
            Tag::List(vec) => Ok(vec),
            _ => Err(NbtError::WrongTag),
        }
    }

    /// The children of a compound, in the order of the bytes.
    pub fn to_hashmap(&self) -> (r: Result<&Vec<(String, Tag)>, NbtError>)
        ensures
            match self {
                Tag::Compound(v) => r == Ok::<&Vec<(String, Tag)>, NbtError>(v),
                _ => r == Err::<&Vec<(String, Tag)>, NbtError>(NbtError::WrongTag),
            },
    {
        match self {
            Tag::Compound(map) => Ok(map),
            _ => Err(NbtError::WrongTag),
        }
    }

    pub fn to_long_array(&self) -> (r: Result<&Vec<u64>, NbtError>)
        ensures
            match self {
                Tag::LongArray(v) => r == Ok::<&Vec<u64>, NbtError>(v),
                _ => r == Err::<&Vec<u64>, NbtError>(NbtError::WrongTag),
            },
    {
        match self {
            Tag::LongArray(vec) => Ok(vec),
            _ => Err(NbtError::WrongTag),
        }
    }
}

/// Whether `name` is one of `names`.
fn contains_name(names: &Vec<String>, name: &String) -> (b: bool)
    ensures
        b == string_views(names@).contains(name@),
{
    let mut i: usize = 0;
    while i < names.len()
        invariant
            i <= names.len(),
            forall|j: int| 0 <= j < i ==> names[j]@ != name@,
        decreases names.len() - i,
    {
        if names[i] == *name {
            assert(string_views(names@)[i as int] == name@);
            return true;
        }
        i = i + 1;
    }
    false
}

/// The names of `names` as texts of their own.
fn own_names(names: &Vec<&str>) -> (owned: Vec<String>)
    ensures
        string_views(owned@) == str_views(names@),
{
    let mut owned: Vec<String> = Vec::new();
    let mut i: usize = 0;
    while i < names.len()
        invariant
            i <= names.len(),
            owned.len() == i,
            forall|j: int| 0 <= j < i ==> owned[j]@ == names[j]@,
        decreases names.len() - i,
    {
        owned.push(names[i].to_owned());
        i = i + 1;
    }
    assert(string_views(owned@) =~= str_views(names@));
    owned
}

/// Passes over the payload of a tag of kind `id` without building its
/// value. Where the payload cannot be passed over, the cursor stays where it
/// was: an id that is none of the twelve kinds costs no byte.
pub fn skip_tag_payload(reader: &mut Reader, id: &u8) -> (r: Result<(), NbtError>)
    ensures
        final(reader).bytes() == old(reader).bytes(),
        match spec_skip_payload(old(reader).bytes(), old(reader).position(), *id) {
            Ok(next) => r == Ok::<(), NbtError>(()) && final(reader).position() == next && old(
                reader,
            ).position() < next <= old(reader).bytes().len(),
            Err(e) => r == Err::<(), NbtError>(e) && final(reader).position() == old(
                reader,
            ).position(),
        },
{
    let start: usize = reader.mark();
    match skip_payload(reader, id) {
        Ok(()) => Ok(()),
        Err(e) => {
            reader.rewind(start);
            Err(e)
        },
    }
}

/// Passes over the payload of a tag of kind `id`, and leaves the cursor
/// where the passing over ends.
#[verifier::loop_isolation(false)]
fn skip_payload(reader: &mut Reader, id: &u8) -> (r: Result<(), NbtError>)
    ensures
        final(reader).bytes() == old(reader).bytes(),
        match spec_skip_payload(old(reader).bytes(), old(reader).position(), *id) {
            Ok(next) => r == Ok::<(), NbtError>(()) && final(reader).position() == next && old(reader).position() < next <= old(reader).bytes().len(),
            Err(e) => r == Err::<(), NbtError>(e),
        },
    decreases old(reader).bytes().len() - old(reader).position(),
{
    let ghost bytes = reader.bytes();
    let ghost pos0 = reader.position();
    proof {
        use_type_invariant(&*reader);
    }
    if *id == 1 {
        reader.skip(1)
    } else if *id == 2 {
        reader.skip(2)
    } else if *id == 3 || *id == 5 {
        reader.skip(4)
    } else if *id == 4 || *id == 6 {
        reader.skip(8)
    } else if *id == 7 {
        let len: usize = reader.read_u32()? as usize;
        reader.skip(len)
    } else if *id == 8 {
        let len: usize = reader.read_u16()? as usize;
        reader.skip(len)
    } else if *id == 9 {
        let list_id: u8 = reader.read_u8()?;
        let len: u32 = reader.read_u32()?;
        let ghost start = reader.position();
        let mut i: u32 = 0;
        while i < len
            invariant
                reader.bytes() == bytes,
                i <= len,
                pos0 < start <= reader.position() <= bytes.len(),
                spec_skip_list(bytes, start, list_id, len as int) == spec_skip_list(
                    bytes,
                    reader.position(),
                    list_id,
                    len - i,
                ),
            decreases len - i,
        {
            skip_payload(reader, &list_id)?;
            i = i + 1;
        }
        Ok(())
    } else if *id == 10 {
        loop
            invariant
                reader.bytes() == bytes,
                pos0 <= reader.position() <= bytes.len(),
                spec_skip_compound(bytes, pos0) == spec_skip_compound(bytes, reader.position()),
            decreases bytes.len() - reader.position(),
        {
            let header: (u8, String) = read_tag_header(reader)?;
            if header.0 == 0 {
                return Ok(());
            }
            proof {
                use_type_invariant(&*reader);
            }
            skip_payload(reader, &header.0)?;
        }
    } else if *id == 11 {
        let len: u32 = reader.read_u32()?;
        let left_now: usize = reader.remaining();
        if (len as u64) * 4 > left_now as u64 {
            return Err(NbtError::UnexpectedEof);
        }
        reader.skip((len as usize) * 4)
    } else if *id == 12 {
        let len: u32 = reader.read_u32()?;
        let left_now: usize = reader.remaining();
        if (len as u64) * 8 > left_now as u64 {
            return Err(NbtError::UnexpectedEof);
        }
        reader.skip((len as usize) * 8)
    } else {
        Err(NbtError::InvalidTagId(*id))
    }
}

/// The view of a list tag is the row of its items' views.
pub proof fn lemma_list_view(list: Vec<Tag>)
    ensures
        Tag::List(list)@ == TagTree::List(tag_views(list@)),
{
    assert(tag_tree(Tag::List(list))->List_0 =~= tag_views(list@));
}

/// The view of a compound tag is the row of its children's names and views.
pub proof fn lemma_compound_view(entries: Vec<(String, Tag)>)
    ensures
        Tag::Compound(entries)@ == TagTree::Compound(entry_views(entries@)),
{
    assert(tag_tree(Tag::Compound(entries))->Compound_0 =~= entry_views(entries@));
}

/// Reads `len` big-endian 32-bit numbers.
fn read_int_array(reader: &mut Reader, len: u32) -> (r: Result<Vec<u32>, NbtError>)
    ensures
        final(reader).bytes() == old(reader).bytes(),
        match spec_skip_bytes(old(reader).bytes(), old(reader).position(), 4 * len as int) {
            Ok(next) => r matches Ok(v) && v@ == spec_int_array(
                old(reader).bytes(),
                old(reader).position(),
                len as int,
            ) && final(reader).position() == next,
            Err(e) => r == Err::<Vec<u32>, NbtError>(e),
        },
{
    let ghost bytes = reader.bytes();
    let ghost start = reader.position();
    let left: usize = reader.remaining();
    if (len as u64) * 4 > left as u64 {
        return Err(NbtError::UnexpectedEof);
    }
    let mut array: Vec<u32> = Vec::new();
    let mut i: u32 = 0;
    while i < len
        invariant
            reader.bytes() == bytes,
            i <= len,
            0 <= start,
            start + 4 * len <= bytes.len(),
            reader.position() == start + 4 * i,
            array.len() == i,
            forall|j: int| 0 <= j < i ==> array[j] == spec_be_u32(bytes, start + 4 * j),
        decreases len - i,
    {
        let v: u32 = match reader.read_u32() {
            Ok(v) => v,
            Err(e) => {
                return Err(e);
            },
        };
        array.push(v);
        i = i + 1;
    }
    assert(array@ =~= spec_int_array(bytes, start, len as int));
    Ok(array)
}

/// Reads `len` big-endian 64-bit numbers.
fn read_long_array(reader: &mut Reader, len: u32) -> (r: Result<Vec<u64>, NbtError>)
    ensures
        final(reader).bytes() == old(reader).bytes(),
        match spec_skip_bytes(old(reader).bytes(), old(reader).position(), 8 * len as int) {
            Ok(next) => r matches Ok(v) && v@ == spec_long_array(
                old(reader).bytes(),
                old(reader).position(),
                len as int,
            ) && final(reader).position() == next,
            Err(e) => r == Err::<Vec<u64>, NbtError>(e),
        },
{
    let ghost bytes = reader.bytes();
    let ghost start = reader.position();
    let left: usize = reader.remaining();
    if (len as u64) * 8 > left as u64 {
        return Err(NbtError::UnexpectedEof);
    }
    let mut array: Vec<u64> = Vec::new();
    let mut i: u32 = 0;
    while i < len
        invariant
            reader.bytes() == bytes,
            i <= len,
            0 <= start,
            start + 8 * len <= bytes.len(),
            reader.position() == start + 8 * i,
            array.len() == i,
            forall|j: int| 0 <= j < i ==> array[j] == spec_be_u64(bytes, start + 8 * j),
        decreases len - i,
    {
        let v: u64 = match reader.read_u64() {
            Ok(v) => v,
            Err(e) => {
                return Err(e);
            },
        };
        array.push(v);
        i = i + 1;
    }
    assert(array@ =~= spec_long_array(bytes, start, len as int));
    Ok(array)
}

/// Reads the payload of a tag of kind `id` and builds its value. Where the
/// payload cannot be read, the cursor stays where it was: an id that is none
/// of the twelve kinds costs no byte.
pub fn read_tag_payload(reader: &mut Reader, id: &u8) -> (r: Result<Tag, NbtError>)
    ensures
        final(reader).bytes() == old(reader).bytes(),
        match spec_tag_payload(old(reader).bytes(), old(reader).position(), *id) {
            Ok((value, next)) => r matches Ok(tag) && tag@ == value && final(reader).position()
                == next && old(reader).position() < next <= old(reader).bytes().len(),
            Err(e) => r matches Err(err) && err == e && final(reader).position() == old(
                reader,
            ).position(),
        },
{
    let start: usize = reader.mark();
    match read_payload(reader, id) {
        Ok(tag) => Ok(tag),
        Err(e) => {
            reader.rewind(start);
            Err(e)
        },
    }
}

/// Reads the payload of a tag of kind `id` and builds its value, and leaves
/// the cursor where the reading ends.
#[verifier::loop_isolation(false)]
fn read_payload(reader: &mut Reader, id: &u8) -> (r: Result<Tag, NbtError>)
    ensures
        final(reader).bytes() == old(reader).bytes(),
        match spec_tag_payload(old(reader).bytes(), old(reader).position(), *id) {
            Ok((value, next)) => r matches Ok(tag) && tag@ == value && final(reader).position()
                == next && old(reader).position() < next <= old(reader).bytes().len(),
            Err(e) => r matches Err(err) && err == e,
        },
    decreases old(reader).bytes().len() - old(reader).position(), 1int,
{
    let ghost bytes = reader.bytes();
    let ghost pos0 = reader.position();
    proof {
        use_type_invariant(&*reader);
    }
    if *id == 1 {
        Ok(Tag::Byte(reader.read_u8()?))
    } else if *id == 2 {
        Ok(Tag::Short(reader.read_u16()?))
    } else if *id == 3 {
        Ok(Tag::Int(reader.read_u32()?))
    } else if *id == 4 {
        Ok(Tag::Long(reader.read_u64()?))
    } else if *id == 5 {
        Ok(Tag::Float(reader.read_u32()?))
    } else if *id == 6 {
        Ok(Tag::Double(reader.read_u64()?))
    } else if *id == 7 {
        let len: usize = reader.read_u32()? as usize;
        let array: Vec<u8> = reader.read_bytes(len)?;
        Ok(Tag::ByteArray(array))
    } else if *id == 8 {
        let text: String = read_string(reader)?;
        Ok(Tag::String(text))
    } else if *id == 9 {
        let sub_id: u8 = reader.read_u8()?;
        let len: u32 = reader.read_u32()?;
        let ghost start = reader.position();
        let mut list: Vec<Tag> = Vec::new();
        let mut i: u32 = 0;
        while i < len
            invariant
                reader.bytes() == bytes,
                i <= len,
                list.len() == i,
                pos0 < start <= reader.position() <= bytes.len(),
                match spec_list_items(bytes, reader.position(), sub_id, len - i) {
                    Ok((rest, end)) => spec_list_items(bytes, start, sub_id, len as int) == Ok::<
                        (Seq<TagTree>, int),
                        NbtError,
                    >((tag_views(list@) + rest, end)),
                    Err(e) => spec_list_items(bytes, start, sub_id, len as int) == Err::<
                        (Seq<TagTree>, int),
                        NbtError,
                    >(e),
                },
            decreases len - i,
        {
            let ghost before = list@;
            let ghost at = reader.position();
            let item: Tag = read_payload(reader, &sub_id)?;
            list.push(item);
            i = i + 1;
            proof {
                assert(tag_views(list@) =~= tag_views(before) + seq![item@]);
                match spec_list_items(bytes, reader.position(), sub_id, len - i) {
                    Ok((rest, end)) => {
                        assert(tag_views(before) + (seq![item@] + rest) =~= tag_views(list@)
                            + rest);
                    },
                    Err(e) => {},
                }
            }
        }
        proof {
            lemma_list_view(list);
            assert(tag_views(list@) + Seq::<TagTree>::empty() =~= tag_views(list@));
        }
        Ok(Tag::List(list))
    } else if *id == 10 {
        let entries: Vec<(String, Tag)> = read_compound_entries(reader, None)?;
        proof {
            lemma_compound_view(entries);
        }
        Ok(Tag::Compound(entries))
    } else if *id == 11 {
        let len: u32 = reader.read_u32()?;
        let array: Vec<u32> = read_int_array(reader, len)?;
        Ok(Tag::IntArray(array))
    } else if *id == 12 {
        let len: u32 = reader.read_u32()?;
        let array: Vec<u64> = read_long_array(reader, len)?;
        Ok(Tag::LongArray(array))
    } else {
        Err(NbtError::InvalidTagId(*id))
    }
}

/// The names asked for, as the decoding rules see them.
pub open spec fn wanted_views(wanted: Option<&Vec<String>>) -> Option<Seq<Seq<char>>> {
    match wanted {
        None => None,
        Some(names) => Some(string_views(names@)),
    }
}

/// Reads the children of a compound up to its end. Where names are given,
/// only the children of those names are built; the others are passed over.
#[verifier::loop_isolation(false)]
fn read_compound_entries(reader: &mut Reader, wanted: Option<&Vec<String>>) -> (r: Result<
    Vec<(String, Tag)>,
    NbtError,
>)
    ensures
        final(reader).bytes() == old(reader).bytes(),
        match spec_compound_items(
            old(reader).bytes(),
            old(reader).position(),
            wanted_views(wanted),
        ) {
            Ok((entries, next)) => r matches Ok(v) && entry_views(v@) == entries && final(reader).position() == next && old(reader).position() < next <= old(reader).bytes().len(),
            Err(e) => r matches Err(err) && err == e,
        },
    decreases old(reader).bytes().len() - old(reader).position(), 0int,
{
    let ghost bytes = reader.bytes();
    let ghost pos0 = reader.position();
    let ghost names = wanted_views(wanted);
    proof {
        use_type_invariant(&*reader);
    }
    let mut values: Vec<(String, Tag)> = Vec::new();
    loop
        invariant
            reader.bytes() == bytes,
            pos0 <= reader.position() <= bytes.len(),
            match spec_compound_items(bytes, reader.position(), names) {
                Ok((rest, end)) => spec_compound_items(bytes, pos0, names) == Ok::<
                    (Seq<(Seq<char>, TagTree)>, int),
                    NbtError,
                >((entry_views(values@) + rest, end)),
                Err(e) => spec_compound_items(bytes, pos0, names) == Err::<
                    (Seq<(Seq<char>, TagTree)>, int),
                    NbtError,
                >(e),
            },
        decreases bytes.len() - reader.position(),
    {
        let ghost before = values@;
        let header: (u8, String) = read_tag_header(reader)?;
        if header.0 == 0 {
            assert(entry_views(values@) + Seq::<(Seq<char>, TagTree)>::empty() =~= entry_views(
                values@,
            ));
            return Ok(values);
        }
        proof {
            use_type_invariant(&*reader);
        }
        let keep: bool = match wanted {
            None => true,
            Some(names_given) => contains_name(names_given, &header.1),
        };
        if keep {
            let value: Tag = read_payload(reader, &header.0)?;
            let ghost name = header.1@;
            values.push((header.1, value));
            proof {
                assert(entry_views(values@) =~= entry_views(before) + seq![(name, value@)]);
                match spec_compound_items(bytes, reader.position(), names) {
                    Ok((rest, end)) => {
                        assert(entry_views(before) + (seq![(name, value@)] + rest) =~= entry_views(
                            values@,
                        ) + rest);
                    },
                    Err(e) => {},
                }
            }
        } else {
            skip_payload(reader, &header.0)?;
        }
    }
}

/// Reads the children of a compound up to its end. Where they cannot be
/// read, the cursor stays where it was.
pub fn read_compound_tag(reader: &mut Reader) -> (r: Result<Vec<(String, Tag)>, NbtError>)
    ensures
        final(reader).bytes() == old(reader).bytes(),
        match spec_compound_items(old(reader).bytes(), old(reader).position(), None) {
            Ok((entries, next)) => r matches Ok(v) && entry_views(v@) == entries
                && final(reader).position() == next && old(reader).position() < next <= old(
                reader,
            ).bytes().len(),
            Err(e) => r matches Err(err) && err == e && final(reader).position() == old(
                reader,
            ).position(),
        },
{
    let start: usize = reader.mark();
    match read_compound_entries(reader, None) {
        Ok(entries) => Ok(entries),
        Err(e) => {
            reader.rewind(start);
            Err(e)
        },
    }
}

/// Reads the children of a compound whose names are in `names`, up to the
/// compound's end, and passes over the others. Where they cannot be read,
/// the cursor stays where it was.
pub fn read_compound_tag_names(reader: &mut Reader, names: Vec<&str>) -> (r: Result<
    Vec<(String, Tag)>,
    NbtError,
>)
    ensures
        final(reader).bytes() == old(reader).bytes(),
        match spec_compound_items(
            old(reader).bytes(),
            old(reader).position(),
            Some(str_views(names@)),
        ) {
            Ok((entries, next)) => r matches Ok(v) && entry_views(v@) == entries
                && final(reader).position() == next && old(reader).position() < next <= old(
                reader,
            ).bytes().len(),
            Err(e) => r matches Err(err) && err == e && final(reader).position() == old(
                reader,
            ).position(),
        },
{
    let owned: Vec<String> = own_names(&names);
    let start: usize = reader.mark();
    match read_compound_entries(reader, Some(&owned)) {
        Ok(entries) => Ok(entries),
        Err(e) => {
            reader.rewind(start);
            Err(e)
        },
    }
}

/// Passes over the children of a compound up to the first whose name is in
/// `wanted`, and reads that child's header. Where that fails, the cursor
/// stays where it was.
fn seek_names(reader: &mut Reader, wanted: &Vec<String>) -> (r: Result<
    Option<(u8, String)>,
    NbtError,
>)
    ensures
        final(reader).bytes() == old(reader).bytes(),
        match spec_seek(old(reader).bytes(), old(reader).position(), string_views(wanted@)) {
            Ok((found, next)) => final(reader).position() == next && old(reader).position() < next
                <= old(reader).bytes().len() && match found {
                Some((id, name)) => r matches Ok(Some(h)) && h.0 == id && h.1@ == name,
                None => r matches Ok(None),
            },
            Err(e) => r matches Err(err) && err == e && final(reader).position() == old(
                reader,
            ).position(),
        },
{
    let start: usize = reader.mark();
    match seek_forward(reader, wanted) {
        Ok(found) => Ok(found),
        Err(e) => {
            reader.rewind(start);
            Err(e)
        },
    }
}

/// Passes over the children of a compound up to the first whose name is in
/// `wanted`, and reads that child's header.
#[verifier::loop_isolation(false)]
fn seek_forward(reader: &mut Reader, wanted: &Vec<String>) -> (r: Result<
    Option<(u8, String)>,
    NbtError,
>)
    ensures
        final(reader).bytes() == old(reader).bytes(),
        match spec_seek(old(reader).bytes(), old(reader).position(), string_views(wanted@)) {
            Ok((found, next)) => final(reader).position() == next && old(reader).position() < next
                <= old(reader).bytes().len() && match found {
                Some((id, name)) => r matches Ok(Some(h)) && h.0 == id && h.1@ == name,
                None => r matches Ok(None),
            },
            Err(e) => r matches Err(err) && err == e,
        },
{
    let ghost bytes = reader.bytes();
    let ghost pos0 = reader.position();
    let ghost names = string_views(wanted@);
    proof {
        use_type_invariant(&*reader);
    }
    loop
        invariant
            reader.bytes() == bytes,
            pos0 <= reader.position() <= bytes.len(),
            spec_seek(bytes, pos0, names) == spec_seek(bytes, reader.position(), names),
        decreases bytes.len() - reader.position(),
    {
        let header: (u8, String) = read_tag_header(reader)?;
        if header.0 == 0 {
            return Ok(None);
        }
        if header.0 > 12 {
            return Err(NbtError::InvalidTagId(header.0));
        }
        if contains_name(wanted, &header.1) {
            return Ok(Some(header));
        }
        proof {
            use_type_invariant(&*reader);
        }
        skip_payload(reader, &header.0)?;
    }
}

/// Passes over the children of a compound up to the first whose name is one
/// of `names`, and reads that child's header; `None` where the compound ends
/// first. Where that fails, the cursor stays where it was.
pub fn seek_compound_tag_names(reader: &mut Reader, names: Vec<&str>) -> (r: Result<
    Option<(u8, String)>,
    NbtError,
>)
    ensures
        final(reader).bytes() == old(reader).bytes(),
        match spec_seek(old(reader).bytes(), old(reader).position(), str_views(names@)) {
            Ok((found, next)) => final(reader).position() == next && old(reader).position() < next
                <= old(reader).bytes().len() && match found {
                Some((id, name)) => r matches Ok(Some(h)) && h.0 == id && h.1@ == name,
                None => r matches Ok(None),
            },
            Err(e) => r matches Err(err) && err == e && final(reader).position() == old(
                reader,
            ).position(),
        },
{
    let owned: Vec<String> = own_names(&names);
    seek_names(reader, &owned)
}

/// Passes over the children of a compound up to the first of the name
/// `tag_name`, and reads that child's header; `None` where the compound ends
/// first. Where that fails, the cursor stays where it was.
pub fn seek_compound_tag_name(reader: &mut Reader, tag_name: &str) -> (r: Result<
    Option<(u8, String)>,
    NbtError,
>)
    ensures
        final(reader).bytes() == old(reader).bytes(),
        match spec_seek(old(reader).bytes(), old(reader).position(), seq![tag_name@]) {
            Ok((found, next)) => final(reader).position() == next && old(reader).position() < next
                <= old(reader).bytes().len() && match found {
                Some((id, name)) => r matches Ok(Some(h)) && h.0 == id && h.1@ == name,
                None => r matches Ok(None),
            },
            Err(e) => r matches Err(err) && err == e && final(reader).position() == old(
                reader,
            ).position(),
        },
{
    let mut owned: Vec<String> = Vec::new();
    owned.push(tag_name.to_owned());
    assert(string_views(owned@) =~= seq![tag_name@]);
    seek_names(reader, &owned)
}

/// Reads the head of a list's payload, the kind of its items and their
/// count, and gives the count. Where the head cannot be read, the cursor
/// stays where it was.
pub fn read_list_length(reader: &mut Reader) -> (r: Result<usize, NbtError>)
    ensures
        final(reader).bytes() == old(reader).bytes(),
        match spec_list_length(old(reader).bytes(), old(reader).position()) {
            Ok((len, next)) => r == Ok::<usize, NbtError>(len as usize) && final(reader).position()
                == next && old(reader).position() < next <= old(reader).bytes().len(),
            Err(e) => r == Err::<usize, NbtError>(e) && final(reader).position() == old(
                reader,
            ).position(),
        },
{
    let start: usize = reader.mark();
    reader.read_u8()?;
    match reader.read_u32() {
        Ok(len) => Ok(len as usize),
        Err(e) => {
            reader.rewind(start);
            Err(e)
        },
    }
}

/// The child of a compound that the name `name` stands for: the last one of
/// that name.
pub fn compound_get<'a>(entries: &'a Vec<(String, Tag)>, name: &str) -> (r: Option<&'a Tag>)
    ensures
        match r {
            Some(tag) => spec_compound_get(entry_views(entries@), name@) == Some(tag@),
            None => spec_compound_get(entry_views(entries@), name@) is None,
        },
{
    let wanted: String = name.to_owned();
    let mut i: usize = entries.len();
    assert(entry_views(entries@).subrange(0, i as int) =~= entry_views(entries@));
    while i > 0
        invariant
            i <= entries.len(),
            wanted@ == name@,
            spec_compound_get(entry_views(entries@), name@) == spec_compound_get(
                entry_views(entries@).subrange(0, i as int),
                name@,
            ),
        decreases i,
    {
        let ghost views = entry_views(entries@).subrange(0, i as int);
        assert(views.last() == (entries[i - 1].0@, entries[i - 1].1@));
        assert(views.drop_last() =~= entry_views(entries@).subrange(0, i - 1));
        if entries[i - 1].0 == wanted {
            return Some(&entries[i - 1].1);
        }
        i = i - 1;
    }
    assert(entry_views(entries@).subrange(0, 0).len() == 0);
    None
}

} // verus!
