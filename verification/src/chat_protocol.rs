//! The wire frame.
//!
//! A frame is four fields written one after the other:
//! a protocol version of `VERSION_SIZE` bytes, a command of `DATA_TYPE_SIZE`
//! byte, the payload length as a big-endian integer of `DATA_LEN_SIZE` bytes,
//! and the payload itself.  A frame under construction holds a prefix of
//! these bytes, filled field by field in that order.

use vstd::prelude::*;

verus! {

/// Bytes of the version field.
pub const VERSION_SIZE: usize = 4;

/// Bytes of the command field.
pub const DATA_TYPE_SIZE: usize = 1;

/// Bytes of the payload length field.
pub const DATA_LEN_SIZE: usize = 4;

/// Bytes before the payload.
pub const HEADER_SIZE: usize = 9;

/// The commands that a frame can carry.
#[derive(Clone, Copy, Debug, PartialEq, Eq, Hash, Structural)]
pub enum ChatCommand {
    LoginReq,
    LoginResp,
}

/// The command that a command byte stands for.
pub open spec fn command_of_code(code: u8) -> Option<ChatCommand> {
    if code == 1 {
        Some(ChatCommand::LoginReq)
    } else if code == 2 {
        Some(ChatCommand::LoginResp)
    } else {
        None
    }
}

impl ChatCommand {
    /// The byte that stands for this command on the wire.
    pub open spec fn code(self) -> u8 {
        match self {
            ChatCommand::LoginReq => 1,
            ChatCommand::LoginResp => 2,
        }
    }

    /// The command byte.
    pub fn to_code(&self) -> (r: u8)
        ensures
            r == self.code(),
    {
        match self {
            ChatCommand::LoginReq => 1,
            ChatCommand::LoginResp => 2,
        }
    }

    /// The command field of a frame that carries this command.
    pub fn to_data_type(&self) -> (r: Vec<u8>)
        ensures
            r@ == seq![self.code()],
    {
        let mut r: Vec<u8> = Vec::new();
        r.push(self.to_code());
        r
    }

    /// The command that a command byte stands for, if any.
    pub fn to_self(code: u8) -> (r: Option<ChatCommand>)
        ensures
            r == command_of_code(code),
    {
        if code == 1 {
            Some(ChatCommand::LoginReq)
        } else if code == 2 {
            Some(ChatCommand::LoginResp)
        } else {
            None
        }
    }
}

/// Each command byte names at most one command, and each command is named by its byte.
pub proof fn lemma_command_code_roundtrip(c: ChatCommand, code: u8)
    ensures
        command_of_code(c.code()) == Some(c),
        command_of_code(code) matches Some(d) ==> d.code() == code,
{
}


/// The value of a big-endian field of `DATA_LEN_SIZE` bytes.
pub open spec fn be32_value(s: Seq<u8>) -> nat {
    (s[0] as nat) * 16777216 + (s[1] as nat) * 65536 + (s[2] as nat) * 256 + (s[3] as nat)
}

/// The big-endian field of `DATA_LEN_SIZE` bytes that holds `n`.
pub open spec fn be32_bytes(n: nat) -> Seq<u8> {
    seq![
        ((n / 16777216) % 256) as u8,
        ((n / 65536) % 256) as u8,
        ((n / 256) % 256) as u8,
        (n % 256) as u8,
    ]
}

/// The fields of a frame, in the order in which they travel.
#[derive(Clone, Copy, Debug, PartialEq, Eq, Structural)]
pub enum ProtocolField {
    Version,
    DataType,
    DataLen,
    Data,
}

/// The field at a position.
pub open spec fn field_at(k: int) -> ProtocolField {
    if k == 0 {
        ProtocolField::Version
    } else if k == 1 {
        ProtocolField::DataType
    } else if k == 2 {
        ProtocolField::DataLen
    } else {
        ProtocolField::Data
    }
}

/// The bytes of a frame, field by field.
#[verifier::ext_equal]
pub struct FrameModel {
    pub version: Seq<u8>,
    pub data_type: Seq<u8>,
    pub data_len: Seq<u8>,
    pub data: Seq<u8>,
}

impl FrameModel {
    /// The payload length that the length field declares.
    pub open spec fn declared_len(self) -> nat {
        be32_value(self.data_len)
    }

    /// The bytes held in one field.
    pub open spec fn field(self, f: ProtocolField) -> Seq<u8> {
        match f {
            ProtocolField::Version => self.version,
            ProtocolField::DataType => self.data_type,
            ProtocolField::DataLen => self.data_len,
            ProtocolField::Data => self.data,
        }
    }

    /// The frame with one field replaced.
    pub open spec fn with_field(self, f: ProtocolField, s: Seq<u8>) -> FrameModel {
        match f {
            ProtocolField::Version => FrameModel { version: s, ..self },
            ProtocolField::DataType => FrameModel { data_type: s, ..self },
            ProtocolField::DataLen => FrameModel { data_len: s, ..self },
            ProtocolField::Data => FrameModel { data: s, ..self },
        }
    }

    /// The size that a field has once it is filled; for the payload, the
    /// declared length (meaningful once the length field is filled).
    pub open spec fn expected_len(self, f: ProtocolField) -> nat {
        match f {
            ProtocolField::Version => VERSION_SIZE as nat,
            ProtocolField::DataType => DATA_TYPE_SIZE as nat,
            ProtocolField::DataLen => DATA_LEN_SIZE as nat,
            ProtocolField::Data => self.declared_len(),
        }
    }

    /// A field holds all of its bytes.
    pub open spec fn field_filled(self, f: ProtocolField) -> bool {
        match f {
            ProtocolField::Data => self.data_len.len() == DATA_LEN_SIZE && self.data.len()
                == self.declared_len(),
            _ => self.field(f).len() == self.expected_len(f),
        }
    }

    /// The fields are filled in order, none beyond its size.
    pub open spec fn wf(self) -> bool {
        &&& self.version.len() <= VERSION_SIZE
        &&& self.data_type.len() <= DATA_TYPE_SIZE
        &&& self.data_len.len() <= DATA_LEN_SIZE
        &&& self.data_type.len() > 0 ==> self.version.len() == VERSION_SIZE
        &&& self.data_len.len() > 0 ==> self.data_type.len() == DATA_TYPE_SIZE
        &&& self.data.len() > 0 ==> self.data_len.len() == DATA_LEN_SIZE
        &&& self.data_len.len() == DATA_LEN_SIZE ==> self.data.len() <= self.declared_len()
    }

    /// Every field holds all of its bytes.
    pub open spec fn complete(self) -> bool {
        &&& self.field_filled(ProtocolField::Version)
        &&& self.field_filled(ProtocolField::DataType)
        &&& self.field_filled(ProtocolField::DataLen)
        &&& self.field_filled(ProtocolField::Data)
    }

    /// The bytes of the frame as they travel.
    pub open spec fn bytes(self) -> Seq<u8> {
        self.version + self.data_type + self.data_len + self.data
    }

    /// The command byte of a frame whose command field is filled.
    pub open spec fn command_code(self) -> u8 {
        self.data_type[0]
    }
}

/// The frame that holds nothing yet.
pub open spec fn empty_frame() -> FrameModel {
    FrameModel {
        version: Seq::empty(),
        data_type: Seq::empty(),
        data_len: Seq::empty(),
        data: Seq::empty(),
    }
}

/// The total size of the frame that starts with `e`, read from its header.
pub open spec fn frame_len(e: Seq<u8>) -> int
    recommends
        e.len() >= HEADER_SIZE,
{
    HEADER_SIZE + be32_value(e.subrange(5, 9))
}

/// `e` is the start of a frame, or a whole frame.
pub open spec fn is_frame_prefix(e: Seq<u8>) -> bool {
    e.len() >= HEADER_SIZE ==> e.len() <= frame_len(e)
}

/// `e` is exactly one whole frame.
pub open spec fn is_frame(e: Seq<u8>) -> bool {
    e.len() >= HEADER_SIZE && e.len() == frame_len(e)
}

/// Reads the fields of a frame out of its bytes.
pub open spec fn split_frame(e: Seq<u8>) -> FrameModel {
    let n = e.len() as int;
    let cut = |a: int| if a < n { a } else { n };
    FrameModel {
        version: e.subrange(0, cut(4)),
        data_type: e.subrange(cut(4), cut(5)),
        data_len: e.subrange(cut(5), cut(9)),
        data: e.subrange(cut(9), n),
    }
}

/// A well-formed frame is read back from its bytes, and its bytes are the
/// start of a frame; it is complete exactly when they are a whole frame.
pub proof fn lemma_split_bytes(m: FrameModel)
    requires
        m.wf(),
    ensures
        split_frame(m.bytes()) == m,
        is_frame_prefix(m.bytes()),
        m.complete() <==> is_frame(m.bytes()),
{
    let e = m.bytes();
    if m.data_len.len() == DATA_LEN_SIZE {
        assert(e.subrange(5, 9) =~= m.data_len);
    }
    assert(split_frame(e).version =~= m.version);
    assert(split_frame(e).data_type =~= m.data_type);
    assert(split_frame(e).data_len =~= m.data_len);
    assert(split_frame(e).data =~= m.data);
}

/// The bytes that an optional field holds; an absent field holds none.
pub open spec fn opt_bytes(o: Option<Vec<u8>>) -> Seq<u8> {
    match o {
        Some(v) => v@,
        None => Seq::empty(),
    }
}

/// A frame, possibly still being received.
#[derive(Debug)]
pub struct Protocol {
    pub version: Option<Vec<u8>>,
    pub data_type: Option<Vec<u8>>,
    pub data_len: Option<Vec<u8>>,
    pub data: Option<Vec<u8>>,
}

impl View for Protocol {
    type V = FrameModel;

    open spec fn view(&self) -> FrameModel {
        FrameModel {
            version: opt_bytes(self.version),
            data_type: opt_bytes(self.data_type),
            data_len: opt_bytes(self.data_len),
            data: opt_bytes(self.data),
        }
    }
}

/// The length of a byte field.
fn opt_len(o: &Option<Vec<u8>>) -> (r: usize)
    ensures
        r == opt_bytes(*o).len(),
{
    match o {
        Some(v) => v.len(),
        None => 0,
    }
}

/// Appends bytes to an optional field.
fn opt_append(o: &mut Option<Vec<u8>>, bytes: Vec<u8>)
    ensures
        opt_bytes(*final(o)) == opt_bytes(*old(o)) + bytes@,
{
    let mut bytes = bytes;
    match o {
        Some(v) => {
            v.append(&mut bytes);
        },
        None => {
            *o = Some(bytes);
        },
    }
}

/// Appends the bytes of an optional field to `out`.
fn push_opt(out: &mut Vec<u8>, o: &Option<Vec<u8>>)
    ensures
        final(out)@ == old(out)@ + opt_bytes(*o),
{
    match o {
        Some(v) => {
            let mut i: usize = 0;
            while i < v.len()
                invariant
                    i <= v.len(),
                    out@ == old(out)@ + v@.subrange(0, i as int),
                decreases v.len() - i,
            {
                out.push(v[i]);
                i = i + 1;
                assert(v@.subrange(0, i as int) =~= v@.subrange(0, i - 1) + seq![v@[i - 1]]);
            }
            assert(v@.subrange(0, v.len() as int) =~= v@);
        },
        None => {
            assert(old(out)@ + Seq::<u8>::empty() =~= old(out)@);
        },
    }
}

/// The value of a big-endian length field.
pub fn data_len_value(s: &Vec<u8>) -> (r: u64)
    requires
        s.len() == DATA_LEN_SIZE,
    ensures
        r == be32_value(s@),
{
    (s[0] as u64) * 16777216 + (s[1] as u64) * 65536 + (s[2] as u64) * 256 + (s[3] as u64)
}

/// The length field that a payload of `data.len()` bytes carries.
pub fn calculate_len_by_data(data: &Vec<u8>) -> (r: Vec<u8>)
    requires
        data.len() <= u32::MAX,
    ensures
        r@ == be32_bytes(data.len() as nat),
        be32_value(r@) == data.len(),
{
    let n: u64 = data.len() as u64;
    let mut r: Vec<u8> = Vec::new();
    r.push(((n / 16777216) % 256) as u8);
    r.push(((n / 65536) % 256) as u8);
    r.push(((n / 256) % 256) as u8);
    r.push((n % 256) as u8);
    proof {
        lemma_be32_roundtrip(n as nat);
    }
    r
}

/// A length that fits the length field is read back from it.
pub proof fn lemma_be32_roundtrip(n: nat)
    requires
        n <= u32::MAX,
    ensures
        be32_value(be32_bytes(n)) == n,
        be32_bytes(n).len() == DATA_LEN_SIZE,
{
    let b = be32_bytes(n);
    assert(b[0] == (n / 16777216) % 256);
    assert(b[1] == (n / 65536) % 256);
    assert(b[2] == (n / 256) % 256);
    assert(b[3] == n % 256);
    assert(((n / 16777216) % 256) * 16777216 + ((n / 65536) % 256) * 65536 + ((n / 256) % 256)
        * 256 + n % 256 == n) by (nonlinear_arith)
        requires
            n <= 0xffff_ffff,
    ;
}

/// Law: the payload length field holds the length as four big-endian bytes,
/// most significant first, and is read back the same way; the total size of
/// a frame is its header size plus the length that bytes 5 to 8 declare.
pub proof fn length_field_is_big_endian(n: nat, s: Seq<u8>, e: Seq<u8>)
    requires
        n <= u32::MAX,
        s.len() == DATA_LEN_SIZE,
        e.len() >= HEADER_SIZE,
    ensures
        be32_bytes(n).len() == 4,
        be32_bytes(n)[0] as nat == n / 16777216,
        be32_bytes(n)[1] as nat == (n / 65536) % 256,
        be32_bytes(n)[2] as nat == (n / 256) % 256,
        be32_bytes(n)[3] as nat == n % 256,
        be32_value(s) == (s[0] as nat) * 16777216 + (s[1] as nat) * 65536 + (s[2] as nat) * 256
            + (s[3] as nat),
        be32_value(be32_bytes(n)) == n,
        frame_len(e) == 9 + (e[5] as nat) * 16777216 + (e[6] as nat) * 65536 + (e[7] as nat) * 256
            + (e[8] as nat),
{
    lemma_be32_roundtrip(n);
    assert(n / 16777216 < 256) by (nonlinear_arith)
        requires
            n <= 0xffff_ffff,
    ;
    let h = e.subrange(5, 9);
    assert(h[0] == e[5] && h[1] == e[6] && h[2] == e[7] && h[3] == e[8]);
}

impl Protocol {
    /// A frame that holds nothing yet.
    pub fn create_new() -> (r: Protocol)
        ensures
            r@ == empty_frame(),
            r@.wf(),
    {
        Protocol { version: None, data_type: None, data_len: None, data: None }
    }

    /// The fields in the order in which they travel.
    pub fn get_all_filed_name() -> (r: Vec<ProtocolField>)
        ensures
            r.len() == 4,
            forall|k: int| 0 <= k < 4 ==> r@[k] == field_at(k),
    {
        let mut r: Vec<ProtocolField> = Vec::new();
        r.push(ProtocolField::Version);
        r.push(ProtocolField::DataType);
        r.push(ProtocolField::DataLen);
        r.push(ProtocolField::Data);
        r
    }

    /// Whether a field holds all of its bytes.
    pub fn check_field_fill(&self, field: &ProtocolField) -> (r: bool)
        ensures
            r == self@.field_filled(*field),
    {
        match field {
            ProtocolField::Version => opt_len(&self.version) == VERSION_SIZE,
            ProtocolField::DataType => opt_len(&self.data_type) == DATA_TYPE_SIZE,
            ProtocolField::DataLen => opt_len(&self.data_len) == DATA_LEN_SIZE,
            ProtocolField::Data => {
                match &self.data_len {
                    Some(l) => {
                        if l.len() == DATA_LEN_SIZE {
                            opt_len(&self.data) as u64 == data_len_value(l)
                        } else {
                            false
                        }
                    },
                    None => false,
                }
            },
        }
    }

    /// How many bytes a field still lacks.
    pub fn get_diff_size(&self, field: &ProtocolField) -> (r: usize)
        requires
            self@.wf(),
            *field == ProtocolField::Data ==> self@.data_len.len() == DATA_LEN_SIZE,
        ensures
            r == self@.expected_len(*field) - self@.field(*field).len(),
    {
        match field {
            ProtocolField::Version => VERSION_SIZE - opt_len(&self.version),
            ProtocolField::DataType => DATA_TYPE_SIZE - opt_len(&self.data_type),
            ProtocolField::DataLen => DATA_LEN_SIZE - opt_len(&self.data_len),
            ProtocolField::Data => {
                let declared = match &self.data_len {
                    Some(l) => data_len_value(l),
                    None => 0,
                };
                (declared - opt_len(&self.data) as u64) as usize
            },
        }
    }

    /// Appends bytes to a field.
    pub fn fill_field(&mut self, field: &ProtocolField, bytes: Vec<u8>)
        ensures
            final(self)@ == old(self)@.with_field(*field, old(self)@.field(*field) + bytes@),
    {
        match field {
            ProtocolField::Version => opt_append(&mut self.version, bytes),
            ProtocolField::DataType => opt_append(&mut self.data_type, bytes),
            ProtocolField::DataLen => opt_append(&mut self.data_len, bytes),
            ProtocolField::Data => opt_append(&mut self.data, bytes),
        }
    }

    /// Whether every field holds all of its bytes.
    pub fn completion(&self) -> (r: bool)
        ensures
            r == self@.complete(),
    {
        self.check_field_fill(&ProtocolField::Version) && self.check_field_fill(
            &ProtocolField::DataType,
        ) && self.check_field_fill(&ProtocolField::DataLen) && self.check_field_fill(
            &ProtocolField::Data,
        )
    }

    /// The bytes of the frame as they travel.
    pub fn to_vec(&self) -> (r: Vec<u8>)
        ensures
            r@ == self@.bytes(),
    {
        let mut r: Vec<u8> = Vec::new();
        push_opt(&mut r, &self.version);
        push_opt(&mut r, &self.data_type);
        push_opt(&mut r, &self.data_len);
        push_opt(&mut r, &self.data);
        assert(r@ =~= self@.bytes());
        r
    }
}

} // verus!
