//! The records of provers, allocations, merges and rewards.

use vstd::prelude::*;

use crate::assoc::{value_of, with_value, Key, KeyMap};
use crate::bytes::{be_nat, copy_bytes, read_be_u64, views};

verus! {

/// The fields of the records.
#[derive(Clone, Copy, Debug, PartialEq, Eq, Structural)]
pub enum Field {
    PublicKey,
    Status,
    Seniority,
    KickFrameNumber,
    JoinFrameNumber,
    LeaveFrameNumber,
    PauseFrameNumber,
    ResumeFrameNumber,
    JoinConfirmFrameNumber,
    JoinRejectFrameNumber,
    LeaveConfirmFrameNumber,
    LeaveRejectFrameNumber,
    LastActiveFrameNumber,
    Epoch,
    ConfirmationFilter,
    RejectionFilter,
    ProverAddress,
    DelegateAddress,
    Balance,
}

impl View for Field {
    type V = Field;

    open spec fn view(&self) -> Field {
        *self
    }
}

impl Key for Field {
    fn same(&self, other: &Self) -> (r: bool) {
        *self == *other
    }

    fn dup(&self) -> (r: Self) {
        *self
    }
}

/// The view of a record: its fields with their bytes.
pub type RecordView = Seq<(Field, Seq<u8>)>;

/// A record.
pub struct Record {
    pub fields: KeyMap<Field, Vec<u8>>,
}

impl View for Record {
    type V = RecordView;

    open spec fn view(&self) -> RecordView {
        self.fields@
    }
}

/// A number in an eight-byte field, if the field holds one.
pub open spec fn number_of(r: RecordView, f: Field) -> Option<nat> {
    match value_of(r, f) {
        Some(b) => if b.len() == 8 {
            Some(be_nat(b))
        } else {
            None
        },
        None => None,
    }
}

/// The first byte of a field, if there is one.
pub open spec fn first_byte_of(r: RecordView, f: Field) -> Option<u8> {
    match value_of(r, f) {
        Some(b) => if b.len() > 0 {
            Some(b[0])
        } else {
            None
        },
        None => None,
    }
}

impl Record {
    /// The record without fields.
    pub fn new() -> (r: Self)
        ensures
            r@ == Seq::<(Field, Seq<u8>)>::empty(),
    {
        Record { fields: KeyMap::new() }
    }

    /// The bytes of a field.
    pub fn get(&self, f: Field) -> (r: Option<&Vec<u8>>)
        ensures
            match r {
                Some(b) => value_of(self@, f) == Some(b@),
                None => value_of(self@, f) is None,
            },
    {
        self.fields.get(&f)
    }

    /// Sets the bytes of a field.
    pub fn set(&mut self, f: Field, b: Vec<u8>)
        ensures
            final(self)@ == with_value(old(self)@, f, b@),
    {
        self.fields.insert(f, b);
    }

    /// The number in an eight-byte field.
    pub fn number(&self, f: Field) -> (r: Option<u64>)
        ensures
            match r {
                Some(n) => number_of(self@, f) == Some(n as nat),
                None => number_of(self@, f) is None,
            },
    {
        match self.fields.get(&f) {
            Some(b) => if b.len() == 8 {
                Some(read_be_u64(b.as_slice()))
            } else {
                None
            },
            None => None,
        }
    }

    /// The first byte of a field.
    pub fn first_byte(&self, f: Field) -> (r: Option<u8>)
        ensures
            r == first_byte_of(self@, f),
    {
        match self.fields.get(&f) {
            Some(b) => if b.len() > 0 {
                Some(b[0])
            } else {
                None
            },
            None => None,
        }
    }

    /// The same record once more.
    pub fn dup(&self) -> (r: Self)
        ensures
            r@ == self@,
    {
        let mut out: KeyMap<Field, Vec<u8>> = KeyMap::new();
        let mut i: usize = 0;
        assert(out@ =~= self@.take(0));
        while i < self.fields.entries.len()
            invariant
                i <= self.fields.entries@.len(),
                out@ == self@.take(i as int),
            decreases self.fields.entries@.len() - i,
        {
            let ghost before = out@;
            out.entries.push(
                (self.fields.entries[i].0, copy_bytes(self.fields.entries[i].1.as_slice())),
            );
            assert(out@ =~= before.push(self@[i as int]));
            assert(out@ =~= self@.take(i + 1));
            i += 1;
        }
        assert(self@.take(i as int) =~= self@);
        Record { fields: out }
    }
}

/// What a place of the global state holds.
pub enum GlobalValue {
    /// Nothing, though it was written once.
    Empty,
    Fields(Record),
    /// The identifiers of the atoms that a hyperedge links.
    Links(Vec<Vec<u8>>),
}

/// The mathematical value of a [`GlobalValue`].
pub enum GlobalValueView {
    Empty,
    Fields(RecordView),
    Links(Seq<Seq<u8>>),
}

impl View for GlobalValue {
    type V = GlobalValueView;

    open spec fn view(&self) -> GlobalValueView {
        match self {
            GlobalValue::Empty => GlobalValueView::Empty,
            GlobalValue::Fields(r) => GlobalValueView::Fields(r@),
            GlobalValue::Links(l) => GlobalValueView::Links(views(l@)),
        }
    }
}

/// The record at a place; anything but a record reads as one without fields.
pub open spec fn record_of(v: GlobalValueView) -> RecordView {
    match v {
        GlobalValueView::Fields(r) => r,
        _ => Seq::empty(),
    }
}

impl GlobalValue {
    /// A copy of the record at a place.
    pub fn record(&self) -> (r: Record)
        ensures
            r@ == record_of(self@),
    {
        match self {
            GlobalValue::Fields(r) => r.dup(),
            _ => Record::new(),
        }
    }

    /// Is there nothing?
    pub fn is_empty(&self) -> (r: bool)
        ensures
            r == (self@ is Empty),
    {
        match self {
            GlobalValue::Empty => true,
            _ => false,
        }
    }
}

/// The standing of an allocation.
#[derive(Clone, Copy, Debug, PartialEq, Eq, Structural)]
pub enum ProverStatus {
    Joining,
    Active,
    Paused,
    Leaving,
    Rejected,
    Kicked,
    Unknown,
}

/// The standing that a status byte names.
pub open spec fn status_of(b: u8) -> ProverStatus {
    if b == 0 {
        ProverStatus::Joining
    } else if b == 1 {
        ProverStatus::Active
    } else if b == 2 {
        ProverStatus::Paused
    } else if b == 3 {
        ProverStatus::Leaving
    } else if b == 4 {
        ProverStatus::Rejected
    } else if b == 5 {
        ProverStatus::Kicked
    } else {
        ProverStatus::Unknown
    }
}

/// What an allocation's record says. A number that is not set, or whose field is
/// not eight bytes long, is zero.
pub struct ProverAllocationInfo {
    pub status: ProverStatus,
    pub confirmation_filter: Vec<u8>,
    pub rejection_filter: Vec<u8>,
    pub join_frame_number: u64,
    pub leave_frame_number: u64,
    pub pause_frame_number: u64,
    pub resume_frame_number: u64,
    pub kick_frame_number: u64,
    pub join_confirm_frame_number: u64,
    pub join_reject_frame_number: u64,
    pub leave_confirm_frame_number: u64,
    pub leave_reject_frame_number: u64,
    pub last_active_frame_number: u64,
    pub epoch: u64,
}

/// A number field, or zero.
pub open spec fn number_or_zero(r: RecordView, f: Field) -> nat {
    match number_of(r, f) {
        Some(n) => n,
        None => 0,
    }
}

/// A field's bytes, or none.
pub open spec fn bytes_or_none(r: RecordView, f: Field) -> Seq<u8> {
    match value_of(r, f) {
        Some(b) => b,
        None => Seq::empty(),
    }
}

impl Record {
    fn number_or_zero(&self, f: Field) -> (r: u64)
        ensures
            r as nat == number_or_zero(self@, f),
    {
        match self.number(f) {
            Some(n) => n,
            None => 0,
        }
    }

    /// The bytes of a field, or none.
    pub fn bytes_or_none(&self, f: Field) -> (r: Vec<u8>)
        ensures
            r@ == bytes_or_none(self@, f),
    {
        match self.get(f) {
            Some(b) => copy_bytes(b.as_slice()),
            None => Vec::new(),
        }
    }

    /// Reads an allocation's record. There is nothing to read where it has no
    /// status.
    pub fn allocation_info(&self) -> (r: Option<ProverAllocationInfo>)
        ensures
            r is Some <==> first_byte_of(self@, Field::Status) is Some,
            r matches Some(a) ==> {
                &&& a.status == status_of(first_byte_of(self@, Field::Status)->Some_0)
                &&& a.confirmation_filter@ == bytes_or_none(self@, Field::ConfirmationFilter)
                &&& a.rejection_filter@ == bytes_or_none(self@, Field::RejectionFilter)
                &&& a.join_frame_number == number_or_zero(self@, Field::JoinFrameNumber)
                &&& a.leave_frame_number == number_or_zero(self@, Field::LeaveFrameNumber)
                &&& a.pause_frame_number == number_or_zero(self@, Field::PauseFrameNumber)
                &&& a.resume_frame_number == number_or_zero(self@, Field::ResumeFrameNumber)
                &&& a.kick_frame_number == number_or_zero(self@, Field::KickFrameNumber)
                &&& a.join_confirm_frame_number == number_or_zero(
                    self@,
                    Field::JoinConfirmFrameNumber,
                )
                &&& a.join_reject_frame_number == number_or_zero(
                    self@,
                    Field::JoinRejectFrameNumber,
                )
                &&& a.leave_confirm_frame_number == number_or_zero(
                    self@,
                    Field::LeaveConfirmFrameNumber,
                )
                &&& a.leave_reject_frame_number == number_or_zero(
                    self@,
                    Field::LeaveRejectFrameNumber,
                )
                &&& a.last_active_frame_number == number_or_zero(
                    self@,
                    Field::LastActiveFrameNumber,
                )
                &&& a.epoch == number_or_zero(self@, Field::Epoch)
            },
    {
        let status: u8 = match self.first_byte(Field::Status) {
            Some(b) => b,
            None => {
                return None;
            },
        };
        let status = match status {
            0 => ProverStatus::Joining,
            1 => ProverStatus::Active,
            2 => ProverStatus::Paused,
            3 => ProverStatus::Leaving,
            4 => ProverStatus::Rejected,
            5 => ProverStatus::Kicked,
            _ => ProverStatus::Unknown,
        };
        Some(
            ProverAllocationInfo {
                status,
                confirmation_filter: self.bytes_or_none(Field::ConfirmationFilter),
                rejection_filter: self.bytes_or_none(Field::RejectionFilter),
                join_frame_number: self.number_or_zero(Field::JoinFrameNumber),
                leave_frame_number: self.number_or_zero(Field::LeaveFrameNumber),
                pause_frame_number: self.number_or_zero(Field::PauseFrameNumber),
                resume_frame_number: self.number_or_zero(Field::ResumeFrameNumber),
                kick_frame_number: self.number_or_zero(Field::KickFrameNumber),
                join_confirm_frame_number: self.number_or_zero(Field::JoinConfirmFrameNumber),
                join_reject_frame_number: self.number_or_zero(Field::JoinRejectFrameNumber),
                leave_confirm_frame_number: self.number_or_zero(Field::LeaveConfirmFrameNumber),
                leave_reject_frame_number: self.number_or_zero(Field::LeaveRejectFrameNumber),
                last_active_frame_number: self.number_or_zero(Field::LastActiveFrameNumber),
                epoch: self.number_or_zero(Field::Epoch),
            },
        )
    }
}

} // verus!
