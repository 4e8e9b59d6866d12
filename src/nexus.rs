//! The decoder of an index stream: it frames the records and turns each one
//! into the event it stands for.

use vstd::prelude::*;

use crate::doc::{classify, fields_view, spec_classify};
use crate::java::{be_i32, modified_utf8, DataInput, InputError};
use crate::text::push_char;
use crate::wire::{
    byte_name, events_of, field_at, fields_from, header_error, header_len, lemma_fields_err,
    lemma_record_advances, name_view, record_at, record_view, records_from, stream_from, RawField,
};

pub use crate::doc::{
    AttachmentStatus, Checksum, Doc, DocError, Event, EventView, FullInfo, Name, UniqId,
};
pub use crate::wire::{DecodeError, FrameError};

verus! {

fn frame_error(e: InputError) -> (r: FrameError)
    ensures
        e == InputError::Truncated ==> r == FrameError::Truncated,
        e == InputError::InvalidText ==> r == FrameError::InvalidText,
{
    match e {
        InputError::Truncated => FrameError::Truncated,
        InputError::InvalidText => FrameError::InvalidText,
    }
}

fn name_from_byte(b: u8) -> (r: Name)
    ensures
        r@ == byte_name(b),
{
    match b {
        0x75 => Name::U,
        0x69 => Name::I,
        0x6e => Name::N,
        0x6d => Name::M,
        0x64 => Name::D,
        0x31 => Name::Checksum,
        _ => {
            let mut s = String::new();
            push_char(&mut s, b as char);
            assert(s@ =~= seq![b as char]);
            Name::Other(s)
        },
    }
}

/// Reads one field: flags, name and value.
fn read_field(f: &mut DataInput) -> (r: Result<(Name, String), FrameError>)
    requires
        old(f).wf(),
    ensures
        final(f).wf(),
        final(f).bytes() == old(f).bytes(),
        match field_at(old(f).bytes(), old(f).pos()) {
            Ok((raw, q)) => (r matches Ok(v) && v.0@ == name_view(raw.name) && v.1@
                == modified_utf8(raw.value)->0 && final(f).pos() == q),
            Err(e) => r == Err::<(Name, String), FrameError>(e),
        },
{
    let ghost b = f.bytes();
    let ghost p = f.pos();
    let flags = match f.read_unsigned_byte() {
        Ok(v) => v,
        Err(e) => return Err(frame_error(e)),
    };
    if flags > 0x0f {
        return Err(FrameError::Flags(flags));
    }
    let name_len = match f.read_unsigned_short() {
        Ok(v) => v,
        Err(e) => return Err(frame_error(e)),
    };
    let name = if name_len == 0 {
        return Err(FrameError::EmptyName);
    } else if name_len == 1 {
        match f.read_unsigned_byte() {
            Ok(c) => {
                if c >= 0x80 {
                    return Err(FrameError::InvalidText);
                }
                assert(c == b[p + 3]);
                assert(b.subrange(p + 3, p + 4) =~= seq![c]);
                name_from_byte(c)
            },
            Err(e) => return Err(frame_error(e)),
        }
    } else {
        match f.read_utf8(name_len as usize) {
            Ok(s) => Name::Other(s),
            Err(e) => return Err(frame_error(e)),
        }
    };
    let value_len = match f.read_int() {
        Ok(v) => v,
        Err(e) => return Err(frame_error(e)),
    };
    if value_len < 0 {
        return Err(FrameError::ValueLength(value_len));
    }
    let value = match f.read_utf8(value_len as usize) {
        Ok(s) => s,
        Err(e) => return Err(frame_error(e)),
    };
    Ok((name, value))
}

/// Reads one record: a field count and that many fields. Nothing is read at
/// the end of the input.
fn read_fields(f: &mut DataInput) -> (r: Result<Option<Vec<(Name, String)>>, DecodeError>)
    requires
        old(f).wf(),
    ensures
        final(f).wf(),
        final(f).bytes() == old(f).bytes(),
        old(f).left() == 0 ==> (r matches Ok(None) && final(f).pos() == old(f).pos()),
        old(f).left() > 0 ==> match record_at(old(f).bytes(), old(f).pos()) {
            Ok((raws, q)) => (r matches Ok(Some(v)) && fields_view(v@) == record_view(raws)
                && final(f).pos() == q),
            Err(e) => r == Err::<Option<Vec<(Name, String)>>, DecodeError>(e),
        },
{
    let ghost b = f.bytes();
    if f.check_eof() {
        return Ok(None);
    }
    let offset = f.position();
    let count = match f.read_int() {
        Ok(v) => v,
        Err(_) => return Err(DecodeError { offset, field: None, kind: FrameError::Truncated }),
    };
    if count < 0 {
        return Err(DecodeError { offset, field: None, kind: FrameError::FieldCount(count) });
    }
    let count = count as usize;
    let mut ret: Vec<(Name, String)> = Vec::new();
    let ghost mut raws: Seq<RawField> = Seq::empty();
    let mut i: usize = 0;
    while i < count
        invariant
            f.wf(),
            f.bytes() == b,
            b == old(f).bytes(),
            old(f).left() > 0,
            offset == old(f).pos(),
            offset + 4 <= b.len(),
            count as int == be_i32(b, offset as int),
            i <= count,
            fields_from(b, offset + 4, i as nat) == Ok::<(Seq<RawField>, int), (nat, FrameError)>(
                (raws, f.pos()),
            ),
            fields_view(ret@) == record_view(raws),
        decreases count - i,
    {
        let ghost q = f.pos();
        match read_field(f) {
            Ok(v) => {
                proof {
                    let raw = field_at(b, q)->Ok_0.0;
                    assert(record_view(raws.push(raw)) =~= record_view(raws).push(
                        (name_view(raw.name), modified_utf8(raw.value)->0),
                    ));
                    raws = raws.push(raw);
                }
                ret.push(v);
                assert(fields_view(ret@) =~= record_view(raws));
            },
            Err(kind) => {
                proof {
                    lemma_fields_err(b, offset + 4, i as nat, count as nat);
                }
                return Err(DecodeError { offset, field: Some(i), kind });
            },
        }
        i = i + 1;
    }
    Ok(Some(ret))
}

/// The events of a stream, in order and one record at a time.
pub struct Decoder<'a> {
    input: DataInput<'a>,
}

impl<'a> Decoder<'a> {
    pub closed spec fn bytes(&self) -> Seq<u8> {
        self.input.bytes()
    }

    pub closed spec fn pos(&self) -> int {
        self.input.pos()
    }

    pub open spec fn wf(&self) -> bool {
        0 <= self.pos() <= self.bytes().len()
    }

    /// The events still to come, and the error that will stop them, if any.
    pub open spec fn remaining(&self) -> (Seq<EventView>, Option<DecodeError>) {
        stream_from(self.bytes(), self.pos())
    }

    /// Reads the header: the version byte, which must be 1, and a timestamp.
    pub fn new(from: &'a [u8]) -> (r: Result<Decoder<'a>, DecodeError>)
        ensures
            match r {
                Ok(d) => header_error(from@) is None && d.wf() && d.bytes() == from@ && d.pos()
                    == header_len(),
                Err(e) => header_error(from@) == Some(e),
            },
    {
        let mut input = DataInput::new(from);
        let truncated = DecodeError { offset: 0, field: None, kind: FrameError::Truncated };
        let version = match input.read_byte() {
            Ok(v) => v,
            Err(_) => return Err(truncated),
        };
        if version != 1 {
            return Err(DecodeError { offset: 0, field: None, kind: FrameError::Version(version) });
        }
        let _timestamp_ms = match input.read_long() {
            Ok(v) => v,
            Err(_) => return Err(truncated),
        };
        Ok(Decoder { input })
    }

    /// The next event: records that stand for nothing are passed over.
    pub fn next_event(&mut self) -> (r: Result<Option<Event>, DecodeError>)
        requires
            old(self).wf(),
        ensures
            final(self).wf(),
            final(self).bytes() == old(self).bytes(),
            match r {
                Ok(Some(e)) => old(self).remaining().0.len() > 0 && e@ == old(self).remaining().0[0]
                    && final(self).remaining() == (
                    old(self).remaining().0.skip(1),
                    old(self).remaining().1,
                ),
                Ok(None) => old(self).remaining().0.len() == 0 && old(self).remaining().1 is None,
                Err(e) => old(self).remaining().0.len() == 0 && old(self).remaining().1 == Some(e),
            },
    {
        let ghost start = self.remaining();
        loop
            invariant
                self.wf(),
                self.bytes() == old(self).bytes(),
                self.remaining() == start,
                start == old(self).remaining(),
            decreases self.bytes().len() - self.pos(),
        {
            let ghost b = self.bytes();
            let ghost p = self.pos();
            proof {
                lemma_record_advances(b, p);
            }
            match read_fields(&mut self.input) {
                Err(e) => {
                    assert(p < b.len());
                    assert(record_at(b, p) == Err::<(Seq<RawField>, int), DecodeError>(e));
                    assert(records_from(b, p) == (Seq::<Seq<RawField>>::empty(), Some(e)));
                    assert(events_of(Seq::<Seq<RawField>>::empty()) =~= Seq::<EventView>::empty());
                    return Err(e);
                },
                Ok(None) => return Ok(None),
                Ok(Some(fields)) => {
                    let ghost raws = record_at(b, p)->Ok_0.0;
                    let ghost rest = records_from(b, self.pos());
                    let ghost all = seq![raws] + rest.0;
                    assert(records_from(b, p) == (all, rest.1));
                    assert(all.skip(1) =~= rest.0);
                    assert(all[0] == raws);
                    assert(events_of(all) == match spec_classify(record_view(raws)) {
                        Some(e) => seq![e] + events_of(rest.0),
                        None => events_of(rest.0),
                    });
                    match classify(fields) {
                        Some(ev) => {
                            assert((seq![ev@] + events_of(rest.0)).skip(1) =~= events_of(rest.0));
                            return Ok(Some(ev));
                        },
                        None => {},
                    }
                },
            }
        }
    }
}

/// The views of a list of events.
pub open spec fn events_view(v: Seq<Event>) -> Seq<EventView> {
    v.map_values(|e: Event| e@)
}

/// Decodes a whole stream: its events in order, or the framing error that
/// stopped it.
pub fn read(from: &[u8]) -> (r: Result<Vec<Event>, DecodeError>)
    ensures
        match r {
            Ok(events) => header_error(from@) is None && stream_from(from@, header_len()) == (
                events_view(events@),
                None::<DecodeError>,
            ),
            Err(e) => match header_error(from@) {
                Some(h) => e == h,
                None => stream_from(from@, header_len()).1 == Some(e),
            },
        },
{
    let mut d = Decoder::new(from)?;
    let mut events: Vec<Event> = Vec::new();
    loop
        invariant
            d.wf(),
            d.bytes() == from@,
            header_error(from@) is None,
            stream_from(from@, header_len()) == (
                events_view(events@) + d.remaining().0,
                d.remaining().1,
            ),
        decreases d.remaining().0.len(),
    {
        let ghost before = d.remaining();
        match d.next_event() {
            Ok(Some(ev)) => {
                events.push(ev);
                assert(events_view(events@) + d.remaining().0 =~= events_view(events@).drop_last()
                    + before.0);
                assert(events_view(events@).drop_last() =~= events_view(events@.drop_last()));
            },
            Ok(None) => {
                assert(events_view(events@) + before.0 =~= events_view(events@));
                return Ok(events);
            },
            Err(e) => return Err(e),
        }
    }
}

} // verus!
