//! The decoder of a snapshot: it walks the opcodes of the stream and hands out
//! one entry per call, until the end marker, behind which the checksum of the
//! whole stream is verified.
use crate::checksum::{checksum, crc64_of};
use crate::cmd::{bytes_are, copy_bytes};
use crate::decimal::{digits_value, is_digit};
use crate::endian::{le_bytes_u16, le_bytes_u64, put_u16_le, put_u64_le};
use crate::errors::RdbError;
use crate::object::{
    lemma_object_advances,
    object_at,
    rdbFlagResizeDB,
    spec_object,
    ObjectRead,
    ObjectSpan,
    RdbFlagAUX,
    RdbTypeHash,
};
use crate::reader::{rdbReader, ReaderView};
use crate::wire::{
    double_at,
    float_at,
    length_at,
    lemma_wire_advances,
    spec_double,
    spec_float,
    spec_length,
    spec_string,
    spec_take,
    spec_u32,
    spec_u64,
    spec_u8,
    string_at,
    take,
    u32_at,
    u64_at,
    u8_at,
};
use vstd::prelude::*;
use vstd::string::*;

verus! {

/// The opcode before a value that belongs to a module and to no key.
pub const rdbFlagModuleAux: u8 = 0xf7;

/// The opcode before the idle time of the next key.
pub const rdbFlagIdle: u8 = 0xf8;

/// The opcode before the access frequency of the next key.
pub const rdbFlagFreq: u8 = 0xf9;

/// The opcode before the expiry of the next key in milliseconds.
pub const rdbFlagExpiryMS: u8 = 0xfc;

/// The opcode before the expiry of the next key in seconds.
pub const rdbFlagExpiry: u8 = 0xfd;

/// The opcode before the number of the database that the next keys live in.
pub const rdbFlagSelectDB: u8 = 0xfe;

/// The opcode that ends the snapshot.
pub const rdbFlagEOF: u8 = 0xff;

/// The opcode that ends the value of a module.
pub const rdbModuleOpcodeEof: u32 = 0;

/// The opcode before a signed number in the value of a module.
pub const rdbModuleOpcodeSint: u32 = 1;

/// The opcode before an unsigned number in the value of a module.
pub const rdbModuleOpcodeUint: u32 = 2;

/// The opcode before a number as text in the value of a module.
pub const rdbModuleOpcodeFloat: u32 = 3;

/// The opcode before a double in the value of a module.
pub const rdbModuleOpcodeDouble: u32 = 4;

/// The opcode before a string in the value of a module.
pub const rdbModuleOpcodeString: u32 = 5;

/// The version of the dump format that value dumps announce.
pub const DUMP_VERSION: u16 = 6;

/// One decoded key, or one part of a key that was too large for one entry.
#[derive(Debug)]
pub struct BinEntry {
    /// The database that the key lives in.
    pub DB: u32,
    /// The key.
    pub Key: Vec<u8>,
    /// The type tag of the value.
    pub Type: u8,
    /// The value. For an auxiliary field its text, for a key a dump of the
    /// bytes that this entry covers.
    pub Value: Vec<u8>,
    /// When the key expires, in milliseconds since the epoch; 0 for never.
    pub ExpireAt: u64,
    /// 0 where the entry holds a whole value; else the number of members in
    /// this part of an oversized value.
    pub RealMemberCount: u32,
    /// 1 where the value begins with the number of its members.
    pub NeedReadLen: u8,
    /// The idle time recorded for the key.
    pub IdleTime: u32,
    /// The access frequency recorded for the key.
    pub Freq: u8,
}

/// An entry as a mathematical value.
#[verifier::ext_equal]
pub struct EntryView {
    pub DB: u32,
    pub Key: Seq<u8>,
    pub Type: u8,
    pub Value: Seq<u8>,
    pub ExpireAt: u64,
    pub RealMemberCount: u32,
    pub NeedReadLen: u8,
    pub IdleTime: u32,
    pub Freq: u8,
}

impl View for BinEntry {
    type V = EntryView;

    open spec fn view(&self) -> EntryView {
        EntryView {
            DB: self.DB,
            Key: self.Key@,
            Type: self.Type,
            Value: self.Value@,
            ExpireAt: self.ExpireAt,
            RealMemberCount: self.RealMemberCount,
            NeedReadLen: self.NeedReadLen,
            IdleTime: self.IdleTime,
            Freq: self.Freq,
        }
    }
}

/// The entry that nothing has been decoded into yet.
pub open spec fn blank_entry() -> EntryView {
    EntryView {
        DB: 0,
        Key: Seq::empty(),
        Type: 0,
        Value: Seq::empty(),
        ExpireAt: 0,
        RealMemberCount: 0,
        NeedReadLen: 0,
        IdleTime: 0,
        Freq: 0,
    }
}

impl BinEntry {
    /// An entry that nothing has been decoded into yet.
    pub fn new() -> (e: BinEntry)
        ensures
            e@ == blank_entry(),
    {
        BinEntry {
            DB: 0,
            Key: Vec::new(),
            Type: 0,
            Value: Vec::new(),
            ExpireAt: 0,
            RealMemberCount: 0,
            NeedReadLen: 0,
            IdleTime: 0,
            Freq: 0,
        }
    }

    /// A copy of this entry.
    pub fn duplicate(&self) -> (e: BinEntry)
        ensures
            e@ == self@,
    {
        BinEntry {
            DB: self.DB,
            Key: copy_bytes(&self.Key),
            Type: self.Type,
            Value: copy_bytes(&self.Value),
            ExpireAt: self.ExpireAt,
            RealMemberCount: self.RealMemberCount,
            NeedReadLen: self.NeedReadLen,
            IdleTime: self.IdleTime,
            Freq: self.Freq,
        }
    }
}

/// The dump of a value: its type tag, its encoded bytes, the version of the
/// dump format in two bytes, and the checksum of all of these in eight, both
/// least significant byte first.
pub open spec fn spec_value_dump(t: u8, val: Seq<u8>) -> Seq<u8> {
    let body = seq![t] + val + le_bytes_u16(DUMP_VERSION);
    body + le_bytes_u64(crc64_of(body))
}


/// The part of a dump that its checksum covers: the type tag, the encoded
/// bytes, and the version of the dump format.
pub open spec fn spec_dump_body(t: u8, val: Seq<u8>) -> Seq<u8> {
    seq![t] + val + le_bytes_u16(DUMP_VERSION)
}

/// Builds the part of a dump that its checksum covers.
pub fn dump_body(t: u8, val: &Vec<u8>) -> (wtr: Vec<u8>)
    ensures
        wtr@ == spec_dump_body(t, val@),
{
    let mut wtr: Vec<u8> = Vec::new();
    wtr.push(t);
    let mut k: usize = 0;
    while k < val.len()
        invariant
            k <= val.len(),
            wtr@ == seq![t] + val@.subrange(0, k as int),
        decreases val.len() - k,
    {
        wtr.push(val[k]);
        k = k + 1;
        assert(wtr@ =~= seq![t] + val@.subrange(0, k as int));
    }
    assert(val@.subrange(0, k as int) =~= val@);
    put_u16_le(&mut wtr, DUMP_VERSION);
    wtr
}

/// Puts the checksum `crc` behind the body of a dump, least significant
/// byte first.
pub fn seal_dump(body: Vec<u8>, crc: u64) -> (wtr: Vec<u8>)
    ensures
        wtr@ == body@ + le_bytes_u64(crc),
{
    let mut wtr: Vec<u8> = body;
    put_u64_le(&mut wtr, crc);
    wtr
}

/// Wraps the encoded bytes of a value of type `t` into a dump that the
/// destination can load.
pub fn createValueDump(t: u8, val: Vec<u8>) -> (wtr: Vec<u8>)
    ensures
        wtr@ == spec_value_dump(t, val@),
{
    let body: Vec<u8> = dump_body(t, &val);
    let crc: u64 = checksum(&body);
    seal_dump(body, crc)
}

/// Holds the checksum `stored` at the end of a snapshot against the
/// checksum `crc` of the bytes before it.
pub fn verify_checksum(stored: u64, crc: u64) -> (r: Result<(), RdbError>)
    ensures
        r == (if stored == crc {
            Ok::<(), RdbError>(())
        } else {
            Err::<(), RdbError>(RdbError::Checksum)
        }),
{
    if stored != crc {
        Err(RdbError::Checksum)
    } else {
        Ok(())
    }
}

/// The position behind the value of a module that begins at `pos`: a sequence
/// of fields, each an opcode and what the opcode announces (a number, a
/// number as text, a double or a string), up to the opcode 0.
pub open spec fn spec_module_value(raw: Seq<u8>, pos: int) -> Result<int, RdbError>
    decreases raw.len() - pos,
{
    match spec_length(raw, pos) {
        Err(e) => Err(e),
        Ok((opcode, at1)) => {
            if opcode == rdbModuleOpcodeEof {
                Ok(at1)
            } else {
                let field: Result<int, RdbError> = if opcode == rdbModuleOpcodeSint || opcode
                    == rdbModuleOpcodeUint {
                    match spec_length(raw, at1) {
                        Err(e) => Err(e),
                        Ok((_, at2)) => Ok(at2),
                    }
                } else if opcode == rdbModuleOpcodeString {
                    match spec_string(raw, at1) {
                        Err(e) => Err(e),
                        Ok((_, at2)) => Ok(at2),
                    }
                } else if opcode == rdbModuleOpcodeFloat {
                    match spec_float(raw, at1) {
                        Err(e) => Err(e),
                        Ok((_, at2)) => Ok(at2),
                    }
                } else if opcode == rdbModuleOpcodeDouble {
                    match spec_double(raw, at1) {
                        Err(e) => Err(e),
                        Ok((_, at2)) => Ok(at2),
                    }
                } else {
                    Ok(at1)
                };
                match field {
                    Err(e) => Err(e),
                    Ok(at2) => {
                        proof {
                            lemma_wire_advances(raw, pos);
                            lemma_wire_advances(raw, at1);
                        }
                        spec_module_value(raw, at2)
                    },
                }
            }
        },
    }
}

/// The value of a module lies within the bytes and takes up at least one.
pub proof fn lemma_module_value_advances(raw: Seq<u8>, pos: int)
    ensures
        spec_module_value(raw, pos) matches Ok(next) ==> 0 <= pos < next <= raw.len(),
    decreases raw.len() - pos,
{
    lemma_wire_advances(raw, pos);
    match spec_length(raw, pos) {
        Ok((opcode, at1)) => {
            lemma_wire_advances(raw, at1);
            if opcode != rdbModuleOpcodeEof {
                if opcode == rdbModuleOpcodeSint || opcode == rdbModuleOpcodeUint {
                    match spec_length(raw, at1) {
                        Ok((_, at2)) => lemma_module_value_advances(raw, at2),
                        _ => {},
                    }
                } else if opcode == rdbModuleOpcodeString {
                    match spec_string(raw, at1) {
                        Ok((_, at2)) => lemma_module_value_advances(raw, at2),
                        _ => {},
                    }
                } else if opcode == rdbModuleOpcodeFloat {
                    match spec_float(raw, at1) {
                        Ok((_, at2)) => lemma_module_value_advances(raw, at2),
                        _ => {},
                    }
                } else if opcode == rdbModuleOpcodeDouble {
                    match spec_double(raw, at1) {
                        Ok((_, at2)) => lemma_module_value_advances(raw, at2),
                        _ => {},
                    }
                } else {
                    lemma_module_value_advances(raw, at1);
                }
            }
        },
        _ => {},
    }
}

/// Passes over the value of a module.
pub fn module_value_at(raw: &Vec<u8>, pos: usize) -> (r: Result<usize, RdbError>)
    requires
        pos <= raw.len(),
    ensures
        match spec_module_value(raw@, pos as int) {
            Ok(next) => r matches Ok(got) && got == next,
            Err(e) => r matches Err(x) && x == e,
        },
        r matches Ok(next) ==> pos < next <= raw.len(),
{
    let ghost whole = spec_module_value(raw@, pos as int);
    let mut at: usize = pos;
    loop
        invariant
            pos <= at <= raw.len(),
            whole == spec_module_value(raw@, pos as int),
            whole == spec_module_value(raw@, at as int),
        decreases raw.len() - at,
    {
        let (opcode, at1) = length_at(raw, at)?;
        if opcode == rdbModuleOpcodeEof {
            return Ok(at1);
        }
        if opcode == rdbModuleOpcodeSint || opcode == rdbModuleOpcodeUint {
            let (_, at2) = length_at(raw, at1)?;
            at = at2;
        } else if opcode == rdbModuleOpcodeString {
            let (_, at2) = string_at(raw, at1)?;
            at = at2;
        } else if opcode == rdbModuleOpcodeFloat {
            let (_, at2) = float_at(raw, at1)?;
            at = at2;
        } else if opcode == rdbModuleOpcodeDouble {
            let (_, at2) = double_at(raw, at1)?;
            at = at2;
        } else {
            at = at1;
        }
    }
}

/// What ends a walk over the opcodes of a snapshot.
pub enum Hit {
    /// The auxiliary field that is handed on.
    Aux { key: Vec<u8>, value: Vec<u8> },
    /// A key of type `t`, whose value begins at `start`.
    Value { t: u8, key: Vec<u8>, start: usize, span: ObjectRead },
    /// The end marker.
    End,
}

/// A `Hit` as a mathematical value.
pub enum HitView {
    Aux { key: Seq<u8>, value: Seq<u8> },
    Value { t: u8, key: Seq<u8>, start: int, span: ObjectSpan },
    End,
}

impl View for Hit {
    type V = HitView;

    open spec fn view(&self) -> HitView {
        match self {
            Hit::Aux { key, value } => HitView::Aux { key: key@, value: value@ },
            Hit::Value { t, key, start, span } => HitView::Value {
                t: *t,
                key: key@,
                start: *start as int,
                span: span@,
            },
            Hit::End => HitView::End,
        }
    }
}

/// A walk over the opcodes of a snapshot up to the next entry or the end:
/// where it stops, what it found there, and what the opcodes on the way have
/// set.
pub struct Scan {
    /// The position behind what was found.
    pub next: usize,
    /// The database selected.
    pub db: u32,
    /// The expiry announced for the next key, in milliseconds.
    pub ExpireAt: u64,
    /// The idle time announced for the next key.
    pub IdleTime: u32,
    /// The access frequency announced for the next key.
    pub Freq: u8,
    /// What was found.
    pub hit: Hit,
}

/// A `Scan` as a mathematical value.
pub struct ScanView {
    pub next: int,
    pub db: u32,
    pub ExpireAt: u64,
    pub IdleTime: u32,
    pub Freq: u8,
    pub hit: HitView,
}

impl View for Scan {
    type V = ScanView;

    open spec fn view(&self) -> ScanView {
        ScanView {
            next: self.next as int,
            db: self.db,
            ExpireAt: self.ExpireAt,
            IdleTime: self.IdleTime,
            Freq: self.Freq,
            hit: self.hit@,
        }
    }
}

/// The walk that begins at `pos` with database `db` selected and the given
/// expiry, idle time and frequency announced. An opcode byte is followed by
/// what it announces: an auxiliary field of two strings, which ends the walk
/// only under the key `lua`; two size hints; an expiry in milliseconds or in
/// seconds; a database number; a value of a module; an idle time; a
/// frequency. The end marker ends the walk. Any other byte is the type of a
/// key, which follows as a string before its value.
pub open spec fn spec_scan(raw: Seq<u8>, pos: int, db: u32, expire: u64, idle: u32, freq: u8)
    -> Result<ScanView, RdbError>
    decreases raw.len() - pos,
{
    match spec_u8(raw, pos) {
        Err(e) => Err(e),
        Ok((t, at1)) => {
            if t == RdbFlagAUX {
                match spec_string(raw, at1) {
                    Err(e) => Err(e),
                    Ok((key, at2)) => match spec_string(raw, at2) {
                        Err(e) => Err(e),
                        Ok((value, at3)) => if key == "lua".spec_bytes() {
                            Ok(
                                ScanView {
                                    next: at3,
                                    db,
                                    ExpireAt: expire,
                                    IdleTime: idle,
                                    Freq: freq,
                                    hit: HitView::Aux { key, value },
                                },
                            )
                        } else {
                            proof {
                                lemma_wire_advances(raw, at1);
                                lemma_wire_advances(raw, at2);
                            }
                            spec_scan(raw, at3, db, expire, idle, freq)
                        },
                    },
                }
            } else if t == rdbFlagResizeDB {
                match spec_length(raw, at1) {
                    Err(e) => Err(e),
                    Ok((_, at2)) => match spec_length(raw, at2) {
                        Err(e) => Err(e),
                        Ok((_, at3)) => {
                            proof {
                                lemma_wire_advances(raw, at1);
                                lemma_wire_advances(raw, at2);
                            }
                            spec_scan(raw, at3, db, expire, idle, freq)
                        },
                    },
                }
            } else if t == rdbFlagExpiryMS {
                match spec_u64(raw, at1) {
                    Err(e) => Err(e),
                    Ok((ms, at2)) => spec_scan(raw, at2, db, ms, idle, freq),
                }
            } else if t == rdbFlagExpiry {
                match spec_u32(raw, at1) {
                    Err(e) => Err(e),
                    Ok((s, at2)) => spec_scan(raw, at2, db, (s * 1000) as u64, idle, freq),
                }
            } else if t == rdbFlagSelectDB {
                match spec_length(raw, at1) {
                    Err(e) => Err(e),
                    Ok((n, at2)) => {
                        proof {
                            lemma_wire_advances(raw, at1);
                        }
                        spec_scan(raw, at2, n, expire, idle, freq)
                    },
                }
            } else if t == rdbFlagEOF {
                Ok(
                    ScanView {
                        next: at1,
                        db,
                        ExpireAt: expire,
                        IdleTime: idle,
                        Freq: freq,
                        hit: HitView::End,
                    },
                )
            } else if t == rdbFlagModuleAux {
                match spec_length(raw, at1) {
                    Err(e) => Err(e),
                    Ok((_, at2)) => match spec_module_value(raw, at2) {
                        Err(e) => Err(e),
                        Ok(at3) => {
                            proof {
                                lemma_wire_advances(raw, at1);
                                lemma_module_value_advances(raw, at2);
                            }
                            spec_scan(raw, at3, db, expire, idle, freq)
                        },
                    },
                }
            } else if t == rdbFlagIdle {
                match spec_length(raw, at1) {
                    Err(e) => Err(e),
                    Ok((n, at2)) => {
                        proof {
                            lemma_wire_advances(raw, at1);
                        }
                        spec_scan(raw, at2, db, expire, n, freq)
                    },
                }
            } else if t == rdbFlagFreq {
                match spec_u8(raw, at1) {
                    Err(e) => Err(e),
                    Ok((f, at2)) => spec_scan(raw, at2, db, expire, idle, f),
                }
            } else {
                match spec_string(raw, at1) {
                    Err(e) => Err(e),
                    Ok((key, at2)) => match spec_object(raw, at2, t, 0, 0, 0) {
                        Err(e) => Err(e),
                        Ok(span) => Ok(
                            ScanView {
                                next: span.next,
                                db,
                                ExpireAt: expire,
                                IdleTime: idle,
                                Freq: freq,
                                hit: HitView::Value { t, key, start: at2, span },
                            },
                        ),
                    },
                }
            }
        },
    }
}

/// A walk ends within the bytes, behind where it began. A value that it finds
/// begins behind the start of the walk and ends where the walk ends, and
/// leaves members for later entries only if it is a hash.
pub proof fn lemma_scan_advances(raw: Seq<u8>, pos: int, db: u32, expire: u64, idle: u32, freq: u8)
    requires
        0 <= pos <= raw.len(),
    ensures
        spec_scan(raw, pos, db, expire, idle, freq) matches Ok(found) ==> pos < found.next
            <= raw.len() && (found.hit matches HitView::Value { t, start, span, .. } ==> pos
            < start <= span.next && span.next == found.next && (span.remainMember != 0 ==> t
            == RdbTypeHash)),
    decreases raw.len() - pos,
{
    lemma_wire_advances(raw, pos);
    match spec_u8(raw, pos) {
        Err(e) => {},
        Ok((t, at1)) => {
            lemma_wire_advances(raw, at1);
            if t == RdbFlagAUX {
                match spec_string(raw, at1) {
                    Ok((key, at2)) => {
                        lemma_wire_advances(raw, at2);
                        match spec_string(raw, at2) {
                            Ok((value, at3)) => {
                                if key != "lua".spec_bytes() {
                                    lemma_scan_advances(raw, at3, db, expire, idle, freq);
                                }
                            },
                            _ => {},
                        }
                    },
                    _ => {},
                }
            } else if t == rdbFlagResizeDB {
                match spec_length(raw, at1) {
                    Ok((_, at2)) => {
                        lemma_wire_advances(raw, at2);
                        match spec_length(raw, at2) {
                            Ok((_, at3)) => lemma_scan_advances(raw, at3, db, expire, idle, freq),
                            _ => {},
                        }
                    },
                    _ => {},
                }
            } else if t == rdbFlagExpiryMS {
                match spec_u64(raw, at1) {
                    Ok((ms, at2)) => lemma_scan_advances(raw, at2, db, ms, idle, freq),
                    _ => {},
                }
            } else if t == rdbFlagExpiry {
                match spec_u32(raw, at1) {
                    Ok((s, at2)) => lemma_scan_advances(
                        raw,
                        at2,
                        db,
                        (s * 1000) as u64,
                        idle,
                        freq,
                    ),
                    _ => {},
                }
            } else if t == rdbFlagSelectDB {
                match spec_length(raw, at1) {
                    Ok((n, at2)) => lemma_scan_advances(raw, at2, n, expire, idle, freq),
                    _ => {},
                }
            } else if t == rdbFlagEOF {
            } else if t == rdbFlagModuleAux {
                match spec_length(raw, at1) {
                    Ok((_, at2)) => {
                        lemma_module_value_advances(raw, at2);
                        match spec_module_value(raw, at2) {
                            Ok(at3) => lemma_scan_advances(raw, at3, db, expire, idle, freq),
                            _ => {},
                        }
                    },
                    _ => {},
                }
            } else if t == rdbFlagIdle {
                match spec_length(raw, at1) {
                    Ok((n, at2)) => lemma_scan_advances(raw, at2, db, expire, n, freq),
                    _ => {},
                }
            } else if t == rdbFlagFreq {
                match spec_u8(raw, at1) {
                    Ok((f, at2)) => lemma_scan_advances(raw, at2, db, expire, idle, f),
                    _ => {},
                }
            } else {
                match spec_string(raw, at1) {
                    Ok((key, at2)) => lemma_object_advances(raw, at2, t, 0, 0, 0),
                    _ => {},
                }
            }
        },
    }
}

/// Walks the opcodes from `pos` to the next entry or to the end marker.
pub fn scan_at(raw: &Vec<u8>, pos: usize, db: u32, expire: u64, idle: u32, freq: u8) -> (r:
    Result<Scan, RdbError>)
    requires
        pos <= raw.len(),
    ensures
        match spec_scan(raw@, pos as int, db, expire, idle, freq) {
            Ok(found) => r matches Ok(got) && got@ == found,
            Err(e) => r matches Err(x) && x == e,
        },
        r matches Ok(got) ==> pos < got.next <= raw.len() && (got.hit matches Hit::Value {
            start,
            span,
            ..
        } ==> pos < start <= span.next && span.next == got.next),
        r matches Ok(got) ==> (got.hit matches Hit::Value { t, span, .. } ==> (span.remainMember
            != 0 ==> t == RdbTypeHash)),
{
    let ghost whole = spec_scan(raw@, pos as int, db, expire, idle, freq);
    let mut at: usize = pos;
    let mut now_db: u32 = db;
    let mut now_expire: u64 = expire;
    let mut now_idle: u32 = idle;
    let mut now_freq: u8 = freq;
    loop
        invariant
            pos <= at <= raw.len(),
            whole == spec_scan(raw@, pos as int, db, expire, idle, freq),
            whole == spec_scan(raw@, at as int, now_db, now_expire, now_idle, now_freq),
        decreases raw.len() - at,
    {
        let (t, at1) = u8_at(raw, at)?;
        if t == RdbFlagAUX {
            let (key, at2) = string_at(raw, at1)?;
            let (value, at3) = string_at(raw, at2)?;
            if bytes_are(&key, "lua") {
                return Ok(
                    Scan {
                        next: at3,
                        db: now_db,
                        ExpireAt: now_expire,
                        IdleTime: now_idle,
                        Freq: now_freq,
                        hit: Hit::Aux { key, value },
                    },
                );
            }
            at = at3;
        } else if t == rdbFlagResizeDB {
            let (_, at2) = length_at(raw, at1)?;
            let (_, at3) = length_at(raw, at2)?;
            at = at3;
        } else if t == rdbFlagExpiryMS {
            let (ms, at2) = u64_at(raw, at1)?;
            now_expire = ms;
            at = at2;
        } else if t == rdbFlagExpiry {
            let (s, at2) = u32_at(raw, at1)?;
            now_expire = s as u64 * 1000;
            at = at2;
        } else if t == rdbFlagSelectDB {
            let (n, at2) = length_at(raw, at1)?;
            now_db = n;
            at = at2;
        } else if t == rdbFlagEOF {
            return Ok(
                Scan {
                    next: at1,
                    db: now_db,
                    ExpireAt: now_expire,
                    IdleTime: now_idle,
                    Freq: now_freq,
                    hit: Hit::End,
                },
            );
        } else if t == rdbFlagModuleAux {
            let (_, at2) = length_at(raw, at1)?;
            let at3: usize = module_value_at(raw, at2)?;
            at = at3;
        } else if t == rdbFlagIdle {
            let (n, at2) = length_at(raw, at1)?;
            now_idle = n;
            at = at2;
        } else if t == rdbFlagFreq {
            let (f, at2) = u8_at(raw, at1)?;
            now_freq = f;
            at = at2;
        } else {
            let (key, at2) = string_at(raw, at1)?;
            let span: ObjectRead = object_at(raw, at2, t, 0, 0, 0)?;
            return Ok(
                Scan {
                    next: span.next,
                    db: now_db,
                    ExpireAt: now_expire,
                    IdleTime: now_idle,
                    Freq: now_freq,
                    hit: Hit::Value { t, key, start: at2, span },
                },
            );
        }
    }
}

/// The decoder of a snapshot.
pub struct Loader {
    /// The reader of the snapshot's bytes.
    pub rdbReader: rdbReader,
    /// The database selected.
    pub db: u32,
    /// The entry handed out last, which holds the key of an oversized hash
    /// while its members are handed out in parts.
    pub lastEntry: BinEntry,
}

/// A decoder as a mathematical value.
#[verifier::ext_equal]
pub struct LoaderView {
    pub reader: ReaderView,
    pub db: u32,
    pub last: EntryView,
}

impl View for Loader {
    type V = LoaderView;

    open spec fn view(&self) -> LoaderView {
        LoaderView { reader: self.rdbReader@, db: self.db, last: self.lastEntry@ }
    }
}

impl LoaderView {
    /// Whether the reader is well formed and collects nothing between entries,
    /// and members are left over only of a hash.
    pub open spec fn wf(self) -> bool {
        &&& self.reader.wf()
        &&& !self.reader.is_cache_buf
        &&& self.reader.buf.len() == 0
        &&& self.reader.remainMember != 0 ==> self.last.Type == RdbTypeHash
    }

    /// The decoder after the bytes `more` have arrived.
    pub open spec fn fed(self, more: Seq<u8>) -> LoaderView {
        LoaderView { reader: self.reader.fed(more), db: self.db, last: self.last }
    }

    /// The decoder after it has given up the bytes that it has read.
    pub open spec fn compacted(self) -> LoaderView {
        LoaderView { reader: self.reader.compacted(), db: self.db, last: self.last }
    }

    /// The decoder after the bytes up to `next` were read and database `db`
    /// was selected.
    pub open spec fn moved(self, next: int, db: u32) -> LoaderView {
        LoaderView { reader: self.reader.advance(next), db, last: self.last }
    }
}

/// The reader after an entry that ends at `next` was handed out.
pub open spec fn entry_reader(pre: ReaderView, span: ObjectSpan) -> ReaderView {
    ReaderView {
        before: pre.before,
        raw: pre.raw,
        nread: span.next,
        crc64: crc64_of(pre.before + pre.raw.subrange(0, span.next)),
        is_cache_buf: false,
        buf: Seq::empty(),
        remainMember: span.remainMember,
        lastReadCount: span.lastReadCount,
        totMemberCount: span.totMemberCount,
    }
}

/// The member count that an entry reports: 0 where it holds the whole value.
pub open spec fn real_count(span: ObjectSpan) -> u32 {
    if span.lastReadCount == span.totMemberCount {
        0
    } else {
        span.lastReadCount
    }
}

/// What one call for the next entry does.
pub struct Step {
    /// What the call returns.
    pub result: Result<(), RdbError>,
    /// The decoder after the call.
    pub loader: LoaderView,
    /// The entry after the call.
    pub entry: EntryView,
}

/// The entry that holds the value of type `t` under `key` whose bytes run
/// from `start` to the end of `span`.
pub open spec fn value_entry(
    raw: Seq<u8>,
    e: EntryView,
    db: u32,
    t: u8,
    key: Seq<u8>,
    start: int,
    span: ObjectSpan,
    expire: u64,
    need_len: u8,
    idle: u32,
    freq: u8,
) -> EntryView {
    EntryView {
        DB: db,
        Key: key,
        Type: t,
        Value: spec_value_dump(t, raw.subrange(start, span.next)),
        ExpireAt: expire,
        RealMemberCount: real_count(span),
        NeedReadLen: need_len,
        IdleTime: idle,
        Freq: freq,
    }
}

/// What a call for the next entry does to a decoder `pre` and an entry `e`.
///
/// Where members of a hash are left over, the call hands out the next part
/// of them under the key of the last entry. Else it walks the opcodes. At a
/// key it hands out the entry of that key; at the auxiliary field `lua` an
/// entry with the field's key and value; at the end marker it reports the end
/// and leaves the decoder behind the marker. A failure leaves decoder and
/// entry as they were.
pub open spec fn spec_next(pre: LoaderView, e: EntryView) -> Step {
    let rd = pre.reader;
    if rd.remainMember != 0 {
        match spec_object(rd.raw, rd.nread, pre.last.Type, rd.remainMember, rd.totMemberCount, 0) {
            Err(err) => Step { result: Err(err), loader: pre, entry: e },
            Ok(span) => {
                let entry = value_entry(
                    rd.raw,
                    e,
                    pre.db,
                    pre.last.Type,
                    pre.last.Key,
                    rd.nread,
                    span,
                    e.ExpireAt,
                    e.NeedReadLen,
                    e.IdleTime,
                    e.Freq,
                );
                Step {
                    result: Ok(()),
                    loader: LoaderView { reader: entry_reader(rd, span), db: pre.db, last: entry },
                    entry,
                }
            },
        }
    } else {
        match spec_scan(rd.raw, rd.nread, pre.db, e.ExpireAt, e.IdleTime, e.Freq) {
            Err(err) => Step { result: Err(err), loader: pre, entry: e },
            Ok(found) => match found.hit {
                HitView::End => Step {
                    result: Err(RdbError::RdbEnd),
                    loader: pre.moved(found.next, found.db),
                    entry: EntryView {
                        DB: e.DB,
                        Key: e.Key,
                        Type: e.Type,
                        Value: e.Value,
                        ExpireAt: found.ExpireAt,
                        RealMemberCount: e.RealMemberCount,
                        NeedReadLen: e.NeedReadLen,
                        IdleTime: found.IdleTime,
                        Freq: found.Freq,
                    },
                },
                HitView::Aux { key, value } => Step {
                    result: Ok(()),
                    loader: pre.moved(found.next, found.db),
                    entry: EntryView {
                        DB: found.db,
                        Key: key,
                        Type: RdbFlagAUX,
                        Value: value,
                        ExpireAt: found.ExpireAt,
                        RealMemberCount: e.RealMemberCount,
                        NeedReadLen: e.NeedReadLen,
                        IdleTime: found.IdleTime,
                        Freq: found.Freq,
                    },
                },
                HitView::Value { t, key, start, span } => {
                    let entry = value_entry(
                        rd.raw,
                        e,
                        found.db,
                        t,
                        key,
                        start,
                        span,
                        found.ExpireAt,
                        1,
                        found.IdleTime,
                        found.Freq,
                    );
                    Step {
                        result: Ok(()),
                        loader: LoaderView {
                            reader: entry_reader(rd, span),
                            db: found.db,
                            last: entry,
                        },
                        entry,
                    }
                },
            },
        }
    }
}

/// A call for the next entry leaves a well-formed decoder well formed over
/// the same bytes. Where it hands out an entry, it has read at least one
/// byte.
pub proof fn lemma_next_advances(pre: LoaderView, e: EntryView)
    requires
        pre.wf(),
    ensures
        spec_next(pre, e).loader.wf(),
        spec_next(pre, e).loader.reader.raw == pre.reader.raw,
        spec_next(pre, e).result is Ok ==> pre.reader.nread < spec_next(
            pre,
            e,
        ).loader.reader.nread,
        spec_next(pre, e).result is Err && spec_next(pre, e).result != Err::<(), RdbError>(
            RdbError::RdbEnd,
        ) ==> spec_next(pre, e).loader == pre && spec_next(pre, e).entry == e,
{
    let rd = pre.reader;
    if rd.remainMember != 0 {
        lemma_object_advances(
            rd.raw,
            rd.nread,
            pre.last.Type,
            rd.remainMember,
            rd.totMemberCount,
            0,
        );
    } else {
        lemma_scan_advances(rd.raw, rd.nread, pre.db, e.ExpireAt, e.IdleTime, e.Freq);
    }
}

/// Whether `t` is the type of a key and no opcode.
pub open spec fn is_value_tag(t: u8) -> bool {
    t < rdbFlagModuleAux
}

/// At the type byte of a key, a call for the next entry hands out the entry
/// of that key: where the decoder has no members left over and stands at a
/// type byte `t`, behind which the key and a value that ends at `span` are
/// read, the call returns the entry of the key and leaves the decoder behind
/// the value.
pub proof fn lemma_next_value(l: LoaderView, e: EntryView, t: u8, key: Seq<u8>, span: ObjectSpan)
    requires
        l.reader.remainMember == 0,
        is_value_tag(t),
        spec_u8(l.reader.raw, l.reader.nread) == Ok::<(u8, int), RdbError>(
            (t, l.reader.nread + 1),
        ),
        spec_string(l.reader.raw, l.reader.nread + 1) matches Ok((k, start)) && k == key
            && spec_object(l.reader.raw, start, t, 0, 0, 0) == Ok::<ObjectSpan, RdbError>(span),
    ensures
        spec_next(l, e).result is Ok,
        spec_next(l, e).entry == value_entry(
            l.reader.raw,
            e,
            l.db,
            t,
            key,
            spec_string(l.reader.raw, l.reader.nread + 1)->Ok_0.1,
            span,
            e.ExpireAt,
            1,
            e.IdleTime,
            e.Freq,
        ),
        spec_next(l, e).loader == (LoaderView {
            reader: entry_reader(l.reader, span),
            db: l.db,
            last: spec_next(l, e).entry,
        }),
{
    let found = spec_scan(l.reader.raw, l.reader.nread, l.db, e.ExpireAt, e.IdleTime, e.Freq);
    let start = spec_string(l.reader.raw, l.reader.nread + 1)->Ok_0.1;
    assert(found == Ok::<ScanView, RdbError>(
        ScanView {
            next: span.next,
            db: l.db,
            ExpireAt: e.ExpireAt,
            IdleTime: e.IdleTime,
            Freq: e.Freq,
            hit: HitView::Value { t, key, start, span },
        },
    ));
}

/// What the header of a snapshot must be: the magic string `REDIS` and a
/// version of four decimal digits.
pub open spec fn spec_header(raw: Seq<u8>, pos: int) -> Result<((), int), RdbError> {
    match spec_take(raw, pos, 9) {
        Err(e) => Err(e),
        Ok((h, next)) => if h.subrange(0, 5) == "REDIS".spec_bytes() && is_digit(h[5])
            && is_digit(h[6]) && is_digit(h[7]) && is_digit(h[8]) {
            Ok(((), next))
        } else {
            Err(RdbError::BadHeader)
        },
    }
}

/// What verifying the checksum at `pos` gives, when `crc` is the checksum of
/// the bytes before `pos`: the eight bytes there, read least significant
/// first, must spell `crc`.
pub open spec fn spec_footer(raw: Seq<u8>, pos: int, crc: u64) -> Result<((), int), RdbError> {
    match spec_u64(raw, pos) {
        Err(e) => Err(e),
        Ok((stored, next)) => if stored == crc {
            Ok(((), next))
        } else {
            Err(RdbError::Checksum)
        },
    }
}

/// Whether `b` is the character code of a decimal digit.
pub fn is_digit_byte(b: u8) -> (r: bool)
    ensures
        r == is_digit(b),
{
    48 <= b && b <= 57
}

/// The decoder after the checksum was verified or found wrong: behind the
/// eight bytes of the checksum, or where it was if they are not there.
pub open spec fn after_footer(pre: LoaderView) -> LoaderView {
    match spec_u64(pre.reader.raw, pre.reader.nread) {
        Ok((_, next)) => pre.moved(next, pre.db),
        Err(_) => pre,
    }
}

impl Loader {
    /// Whether the decoder is in a state that its own operations leave it in.
    pub open spec fn wf(&self) -> bool {
        self@.wf()
    }

    /// A decoder at the start of the snapshot bytes `r`.
    pub fn new(r: Vec<u8>) -> (l: Loader)
        ensures
            l.wf(),
            l@.reader.before == Seq::<u8>::empty(),
            l@.reader.raw == r@,
            l@.reader.nread == 0,
            l@.reader.remainMember == 0,
            l@.db == 0,
            l@.last == blank_entry(),
    {
        Loader { rdbReader: rdbReader::new(r), db: 0, lastEntry: BinEntry::new() }
    }

    /// Takes in the bytes `more` that have arrived from the source. A call
    /// that failed for want of bytes can then be made again.
    pub fn feed(&mut self, more: &Vec<u8>)
        requires
            old(self).wf(),
        ensures
            final(self).wf(),
            final(self)@ == old(self)@.fed(more@),
    {
        self.rdbReader.feed(more);
    }

    /// Gives up the bytes that have been read, to make room.
    pub fn compact(&mut self)
        requires
            old(self).wf(),
        ensures
            final(self).wf(),
            final(self)@ == old(self)@.compacted(),
    {
        self.rdbReader.compact();
    }

    /// Reads the header of the snapshot. A header that is cut short or is not
    /// a header is refused, and nothing is read.
    pub fn Header(&mut self) -> (r: Result<(), RdbError>)
        requires
            old(self).wf(),
        ensures
            final(self).wf(),
            match spec_header(old(self)@.reader.raw, old(self)@.reader.nread) {
                Ok((_, next)) => r is Ok && final(self)@ == old(self)@.moved(next, old(self)@.db),
                Err(e) => r == Err::<(), RdbError>(e) && final(self)@ == old(self)@,
            },
    {
        let from: usize = self.rdbReader.nread;
        let (magic, at1) = take(&self.rdbReader.raw, from, 5)?;
        let (version, at2) = take(&self.rdbReader.raw, at1, 4)?;
        proof {
            let h = self.rdbReader.raw@.subrange(from as int, from + 9);
            assert(h.subrange(0, 5) =~= magic@);
            assert(h[5] == version@[0] && h[6] == version@[1] && h[7] == version@[2] && h[8]
                == version@[3]);
        }
        if !bytes_are(&magic, "REDIS") {
            return Err(RdbError::BadHeader);
        }
        if !is_digit_byte(version[0]) || !is_digit_byte(version[1]) || !is_digit_byte(version[2])
            || !is_digit_byte(version[3]) {
            return Err(RdbError::BadHeader);
        }
        self.rdbReader.commit(at2);
        Ok(())
    }

    /// Verifies the checksum behind the end marker: the next eight bytes
    /// must spell the checksum of every byte before them. The eight bytes are
    /// read in either case.
    pub fn Footer(&mut self) -> (r: Result<(), RdbError>)
        requires
            old(self).wf(),
        ensures
            final(self).wf(),
            r is Ok <==> spec_footer(
                old(self)@.reader.raw,
                old(self)@.reader.nread,
                crc64_of(
                    old(self)@.reader.before + old(self)@.reader.raw.subrange(
                        0,
                        old(self)@.reader.nread,
                    ),
                ),
            ) is Ok,
            match spec_footer(
                old(self)@.reader.raw,
                old(self)@.reader.nread,
                old(self)@.reader.crc64,
            ) {
                Ok(_) => r is Ok,
                Err(e) => r == Err::<(), RdbError>(e),
            },
            final(self)@ == after_footer(old(self)@),
    {
        let crc: u64 = self.rdbReader.crc64;
        let (stored, next) = u64_at(&self.rdbReader.raw, self.rdbReader.nread)?;
        self.rdbReader.commit(next);
        verify_checksum(stored, crc)
    }

    /// Stores the entry of a value in `entry`, remembers it, and moves the
    /// reader behind the value.
    fn finish_value(
        &mut self,
        entry: &mut BinEntry,
        db: u32,
        t: u8,
        key: Vec<u8>,
        start: usize,
        span: ObjectRead,
        expire: u64,
        need_len: u8,
        idle: u32,
        freq: u8,
    )
        requires
            old(self).wf(),
            old(self).rdbReader.nread <= start <= span.next <= old(self).rdbReader.raw.len(),
            span.remainMember != 0 ==> t == RdbTypeHash,
        ensures
            final(self).wf(),
            final(entry)@ == value_entry(
                old(self)@.reader.raw,
                old(entry)@,
                db,
                t,
                key@,
                start as int,
                span@,
                expire,
                need_len,
                idle,
                freq,
            ),
            final(self)@ == (LoaderView {
                reader: entry_reader(old(self)@.reader, span@),
                db,
                last: final(entry)@,
            }),
    {
        let val: Vec<u8> = match take(&self.rdbReader.raw, start, span.next - start) {
            Ok((v, _)) => v,
            Err(_) => Vec::new(),
        };
        entry.DB = db;
        entry.Key = key;
        entry.Type = t;
        entry.Value = createValueDump(t, val);
        entry.ExpireAt = expire;
        entry.RealMemberCount = if span.lastReadCount == span.totMemberCount {
            0
        } else {
            span.lastReadCount
        };
        entry.NeedReadLen = need_len;
        entry.IdleTime = idle;
        entry.Freq = freq;
        self.rdbReader.commit(span.next);
        self.rdbReader.remainMember = span.remainMember;
        self.rdbReader.lastReadCount = span.lastReadCount;
        self.rdbReader.totMemberCount = span.totMemberCount;
        self.db = db;
        self.lastEntry = entry.duplicate();
        assert(self@.reader =~= entry_reader(old(self)@.reader, span@));
    }

    /// Decodes the next entry into `entry`. Returns the error `RdbEnd` at the
    /// end marker of the snapshot, behind which the checksum waits to be
    /// verified.
    pub fn NextBinEntry(&mut self, entry: &mut BinEntry) -> (r: Result<(), RdbError>)
        requires
            old(self).wf(),
        ensures
            final(self).wf(),
            r == spec_next(old(self)@, old(entry)@).result,
            final(self)@ == spec_next(old(self)@, old(entry)@).loader,
            final(entry)@ == spec_next(old(self)@, old(entry)@).entry,
    {
        let from: usize = self.rdbReader.nread;
        if self.rdbReader.remainMember != 0 {
            let t: u8 = self.lastEntry.Type;
            let span: ObjectRead = object_at(
                &self.rdbReader.raw,
                from,
                t,
                self.rdbReader.remainMember,
                self.rdbReader.totMemberCount,
                0,
            )?;
            let key: Vec<u8> = copy_bytes(&self.lastEntry.Key);
            let db: u32 = self.db;
            let expire: u64 = entry.ExpireAt;
            let need_len: u8 = entry.NeedReadLen;
            let idle: u32 = entry.IdleTime;
            let freq: u8 = entry.Freq;
            self.finish_value(entry, db, t, key, from, span, expire, need_len, idle, freq);
            return Ok(());
        }
        let found: Scan = scan_at(
            &self.rdbReader.raw,
            from,
            self.db,
            entry.ExpireAt,
            entry.IdleTime,
            entry.Freq,
        )?;
        match found.hit {
            Hit::End => {
                entry.ExpireAt = found.ExpireAt;
                entry.IdleTime = found.IdleTime;
                entry.Freq = found.Freq;
                self.rdbReader.commit(found.next);
                self.db = found.db;
                Err(RdbError::RdbEnd)
            },
            Hit::Aux { key, value } => {
                entry.DB = found.db;
                entry.Key = key;
                entry.Type = RdbFlagAUX;
                entry.Value = value;
                entry.ExpireAt = found.ExpireAt;
                entry.IdleTime = found.IdleTime;
                entry.Freq = found.Freq;
                self.rdbReader.commit(found.next);
                self.db = found.db;
                Ok(())
            },
            Hit::Value { t, key, start, span } => {
                self.finish_value(
                    entry,
                    found.db,
                    t,
                    key,
                    start,
                    span,
                    found.ExpireAt,
                    1,
                    found.IdleTime,
                    found.Freq,
                );
                Ok(())
            },
        }
    }
}

/// Passes over the value of a module that begins where `l` stands.
pub fn rdbLoadCheckModuleValue(l: &mut Loader) -> (r: Result<(), RdbError>)
    requires
        old(l).wf(),
    ensures
        final(l).wf(),
        match spec_module_value(old(l)@.reader.raw, old(l)@.reader.nread) {
            Ok(next) => r is Ok && final(l)@ == old(l)@.moved(next, old(l)@.db),
            Err(e) => r == Err::<(), RdbError>(e) && final(l)@ == old(l)@,
        },
{
    let next: usize = module_value_at(&l.rdbReader.raw, l.rdbReader.nread)?;
    l.rdbReader.commit(next);
    Ok(())
}

impl rdbReader {
    /// Reads the value of type `t` as far as one entry takes it, collecting
    /// the bytes read, and returns the bytes collected. From then on the
    /// reader collects what it reads. A failure leaves the reader as it was.
    pub fn readObjectValue(&mut self, t: u8) -> (r: Result<Vec<u8>, RdbError>)
        requires
            old(self).wf(),
            old(self).buf.len() + (old(self).raw.len() - old(self).nread) <= usize::MAX,
        ensures
            final(self).wf(),
            match spec_object(
                old(self)@.raw,
                old(self)@.nread,
                t,
                old(self)@.remainMember,
                old(self)@.totMemberCount,
                old(self)@.buf.len() as int,
            ) {
                Ok(span) => r matches Ok(v) && v@ == old(self)@.buf + old(self)@.raw.subrange(
                    old(self)@.nread,
                    span.next,
                ) && final(self)@ == (ReaderView {
                    before: old(self)@.before,
                    raw: old(self)@.raw,
                    nread: span.next,
                    crc64: crc64_of(old(self)@.before + old(self)@.raw.subrange(0, span.next)),
                    is_cache_buf: true,
                    buf: v@,
                    remainMember: span.remainMember,
                    lastReadCount: span.lastReadCount,
                    totMemberCount: span.totMemberCount,
                }),
                Err(e) => r == Err::<Vec<u8>, RdbError>(e) && final(self)@ == old(self)@,
            },
    {
        let span: ObjectRead = object_at(
            &self.raw,
            self.nread,
            t,
            self.remainMember,
            self.totMemberCount,
            self.buf.len(),
        )?;
        self.is_cache_buf = true;
        self.commit(span.next);
        self.remainMember = span.remainMember;
        self.lastReadCount = span.lastReadCount;
        self.totMemberCount = span.totMemberCount;
        Ok(copy_bytes(&self.buf))
    }
}

} // verus!
