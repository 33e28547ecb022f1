//! An opened archive: what its headers say, and how an entry is read out of it.
//!
//! The file itself stays with the caller, who reads the byte ranges asked for here and hands
//! back what they hold.

use vstd::prelude::*;

use crate::decompress::{layout, opened, Decompressor, Layout};
use crate::directory::Directory;
use crate::entry::Entry;
use crate::error::{outcome, ChmError, Fault, Result};
use crate::format::{
    control_data, parse_lzxc_control_data, parse_lzxc_reset_table, reset_table, EntryRecord,
    ItsfHeader, ItspHeader, LzxcResetTable, ITSF_V2_LEN, ITSF_V3_LEN, LZXC_MIN_LEN,
    LZXC_RESET_TABLE_LEN,
};

verus! {

// Metadata paths for the MSCompressed section
pub const PATH_RESET_TABLE: &'static str =
    "::DataSpace/Storage/MSCompressed/Transform/{7FC28940-9D31-11D0-9B27-00A0C91E9C7C}/InstanceData/ResetTable";

pub const PATH_CONTROL_DATA: &'static str = "::DataSpace/Storage/MSCompressed/ControlData";

pub const PATH_CONTENT: &'static str = "::DataSpace/Storage/MSCompressed/Content";

/// The uncompressed section, in which an entry's offset is a plain file offset.
pub const SPACE_UNCOMPRESSED: u8 = 0;

/// The `MSCompressed` section, in which an entry's offset is an LZX stream offset.
pub const SPACE_COMPRESSED: u8 = 1;

/// A range of the file.
#[derive(Debug, Clone, Copy, PartialEq, Eq, Structural)]
pub struct Span {
    pub offset: u64,
    pub len: usize,
}

/// How much of a file of `file_len` bytes is read to find its ITSF header.
pub open spec fn header_len(file_len: u64) -> core::result::Result<usize, Fault> {
    if file_len < ITSF_V2_LEN {
        Err(Fault::BadItsf)
    } else if file_len < ITSF_V3_LEN {
        Ok(file_len as usize)
    } else {
        Ok(ITSF_V3_LEN)
    }
}

/// How much of a file of `file_len` bytes is read to find its ITSF header. V2 headers are
/// shorter than V3, so it is whichever the file can supply, and the parser decides which
/// layout it is looking at.
pub fn header_read_len(file_len: u64) -> (r: Result<usize>)
    ensures
        match r {
            Ok(len) => file_len >= ITSF_V2_LEN && len == if file_len < ITSF_V3_LEN {
                file_len as int
            } else {
                ITSF_V3_LEN as int
            },
            Err(e) => file_len < ITSF_V2_LEN && e@ == Fault::BadItsf,
        },
        outcome(r) == header_len(file_len),
{
    if file_len < ITSF_V2_LEN as u64 {
        return Err(ChmError::BadItsf);
    }
    if file_len < ITSF_V3_LEN as u64 {
        Ok(file_len as usize)
    } else {
        Ok(ITSF_V3_LEN)
    }
}

/// The directory that the two headers describe.
pub fn open_directory(itsf: &ItsfHeader, itsp: &ItspHeader) -> (r: Result<Directory>)
    ensures
        match r {
            Ok(d) => {
                &&& d.dir_offset == itsf.dir_offset + itsp.header_len
                &&& d.block_len == itsp.block_len
                &&& d.index_root == if itsp.index_root < 0 {
                    itsp.index_head
                } else {
                    itsp.index_root
                }
                &&& d.index_head == itsp.index_head
                &&& d == Directory::described(itsf.dir_offset, *itsp)
            },
            Err(e) => itsf.dir_offset + itsp.header_len > u64::MAX && e@ == Fault::Overflow,
        },
{
    match itsf.dir_offset.checked_add(itsp.header_len as u64) {
        Some(_) => Ok(Directory::new(itsf.dir_offset, itsp)),
        None => Err(ChmError::Overflow),
    }
}

/// The control entry that a lookup came to. A missing entry and a compressed one both count
/// as absent: the `MSCompressed` control entries must be stored uncompressed, since they are
/// what tells us how to decompress everything else.
pub fn control_entry(found: Result<Entry>) -> (r: Result<Option<Entry>>)
    ensures
        match (found, r) {
            (Ok(entry), Ok(None)) => entry.space != 0,
            (Ok(entry), Ok(Some(e))) => entry.space == 0 && e == entry,
            (Err(fault), Ok(None)) => fault@ is NotFound,
            (Err(fault), Err(e)) => !(fault@ is NotFound) && e == fault,
            _ => false,
        },
{
    match found {
        Ok(entry) => {
            if entry.is_compressed() {
                Ok(None)
            } else {
                Ok(Some(entry))
            }
        },
        Err(ChmError::NotFound(_)) => Ok(None),
        Err(e) => Err(e),
    }
}

/// The range of `len` bytes from `start` on in the content of a file.
pub open spec fn content_span(data_offset: u64, start: u64, len: usize) -> core::result::Result<
    Span,
    Fault,
> {
    if data_offset + start > u64::MAX {
        Err(Fault::Overflow)
    } else {
        Ok(Span { offset: (data_offset + start) as u64, len })
    }
}

fn span_of(data_offset: u64, start: u64, len: usize) -> (r: Result<Span>)
    ensures
        outcome(r) == content_span(data_offset, start, len),
{
    match data_offset.checked_add(start) {
        Some(offset) => Ok(Span { offset, len }),
        None => Err(ChmError::Overflow),
    }
}

/// Where the parts of the compressed section lie in the content of a file.
#[derive(Debug, Clone, Copy, PartialEq, Eq, Structural)]
pub struct Sources {
    pub data_offset: u64,
    pub cn_start: u64,
    pub rt_start: u64,
    pub rt_len: u64,
    pub lzxc_start: u64,
}

/// The decompression machinery being put together, by what has to be read next.
pub enum Loading {
    /// The file describes no section that can be decoded.
    Absent,
    /// The header of the reset table.
    ResetTable { span: Span, sources: Sources },
    /// The control data.
    ControlData { span: Span, sources: Sources, reset_table: LzxcResetTable },
    /// The table of block offsets.
    Offsets { layout: Layout },
    /// Nothing more.
    Ready { decompressor: Decompressor },
}

impl Loading {
    /// The parts at hand are valid.
    pub open spec fn wf(&self) -> bool {
        match self {
            Loading::Offsets { layout } => layout.wf(),
            Loading::Ready { decompressor } => decompressor.wf(),
            _ => true,
        }
    }

    /// What has to be read next.
    pub open spec fn wants(&self) -> Option<Span> {
        match self {
            Loading::Absent => None,
            Loading::ResetTable { span, .. } => Some(*span),
            Loading::ControlData { span, .. } => Some(*span),
            Loading::Offsets { layout } => Some(
                Span { offset: layout.table_at, len: layout.table_len },
            ),
            Loading::Ready { .. } => None,
        }
    }

    /// Starts with the three control entries. Both control structures have a fixed layout, so
    /// exactly what the parsers need is read rather than trusting the stored entry length as
    /// an allocation size.
    pub fn begin(
        data_offset: u64,
        rt_entry: &Option<Entry>,
        cn_entry: &Option<Entry>,
        lzxc_entry: &Option<Entry>,
    ) -> (r: Result<Loading>)
        ensures
            match (rt_entry, cn_entry, lzxc_entry) {
                (Some(rt), Some(cn), Some(lzxc)) => if rt.length < LZXC_RESET_TABLE_LEN
                    || lzxc.length < LZXC_MIN_LEN {
                    r is Ok && r->Ok_0 is Absent
                } else {
                    match content_span(data_offset, rt.start, LZXC_RESET_TABLE_LEN) {
                        Ok(span) => outcome(r) == Ok::<_, Fault>(
                            Loading::ResetTable {
                                span,
                                sources: Sources {
                                    data_offset,
                                    cn_start: cn.start,
                                    rt_start: rt.start,
                                    rt_len: rt.length,
                                    lzxc_start: lzxc.start,
                                },
                            },
                        ),
                        Err(fault) => outcome(r) == Err::<Loading, _>(fault),
                    }
                },
                _ => r is Ok && r->Ok_0 is Absent,
            },
            r matches Ok(loading) ==> loading.wf(),
    {
        match (rt_entry, cn_entry, lzxc_entry) {
            (Some(rt), Some(cn), Some(lzxc)) => {
                if rt.length < LZXC_RESET_TABLE_LEN as u64 || lzxc.length < LZXC_MIN_LEN as u64 {
                    return Ok(Loading::Absent);
                }
                let span = match span_of(data_offset, rt.start, LZXC_RESET_TABLE_LEN) {
                    Ok(span) => span,
                    Err(e) => {
                        return Err(e);
                    },
                };
                Ok(
                    Loading::ResetTable {
                        span,
                        sources: Sources {
                            data_offset,
                            cn_start: cn.start,
                            rt_start: rt.start,
                            rt_len: rt.length,
                            lzxc_start: lzxc.start,
                        },
                    },
                )
            },
            _ => Ok(Loading::Absent),
        }
    }

    /// What has to be read next, if anything.
    pub fn span(&self) -> (r: Option<Span>)
        ensures
            r == self.wants(),
    {
        match self {
            Loading::Absent => None,
            Loading::ResetTable { span, .. } => Some(*span),
            Loading::ControlData { span, .. } => Some(*span),
            Loading::Offsets { layout } => Some(
                Span { offset: layout.table_at, len: layout.table_len },
            ),
            Loading::Ready { .. } => None,
        }
    }

    /// Goes on with the bytes that were asked for. A control structure that cannot be parsed
    /// means that there is no usable section; a layout that does not hold together is an
    /// error.
    pub fn step(self, bytes: &[u8], file_len: u64) -> (r: Result<Loading>)
        requires
            self.wf(),
            self.wants() matches Some(span) ==> bytes@.len() == span.len,
        ensures
            r matches Ok(loading) ==> loading.wf(),
            match self {
                Loading::ResetTable { span, sources } => match reset_table(bytes@) {
                    Err(_) => r is Ok && r->Ok_0 is Absent,
                    Ok(table) => match content_span(
                        sources.data_offset,
                        sources.lzxc_start,
                        LZXC_MIN_LEN,
                    ) {
                        Ok(next) => outcome(r) == Ok::<_, Fault>(
                            Loading::ControlData { span: next, sources, reset_table: table },
                        ),
                        Err(fault) => outcome(r) == Err::<Loading, _>(fault),
                    },
                },
                Loading::ControlData { span, sources, reset_table } => match control_data(bytes@) {
                    Err(_) => r is Ok && r->Ok_0 is Absent,
                    Ok(ctl) => match layout(
                        sources.data_offset,
                        sources.cn_start,
                        sources.rt_start,
                        sources.rt_len,
                        reset_table,
                        ctl,
                        file_len,
                    ) {
                        Ok(l) => outcome(r) == Ok::<_, Fault>(Loading::Offsets { layout: l }),
                        Err(fault) => outcome(r) == Err::<Loading, _>(fault),
                    },
                },
                Loading::Offsets { layout } => match (opened(layout, bytes@), r) {
                    (Ok(section), Ok(Loading::Ready { decompressor })) => decompressor@ == section,
                    (Err(fault), Err(e)) => e@ == fault,
                    _ => false,
                },
                _ => outcome(r) == Ok::<_, Fault>(self),
            },
    {
        match self {
            Loading::ResetTable { span, sources } => {
                let table = match parse_lzxc_reset_table(bytes) {
                    Ok(table) => table,
                    Err(_) => {
                        return Ok(Loading::Absent);
                    },
                };
                match span_of(sources.data_offset, sources.lzxc_start, LZXC_MIN_LEN) {
                    Ok(next) => Ok(
                        Loading::ControlData { span: next, sources, reset_table: table },
                    ),
                    Err(e) => Err(e),
                }
            },
            Loading::ControlData { span, sources, reset_table } => {
                let ctl = match parse_lzxc_control_data(bytes) {
                    Ok(ctl) => ctl,
                    Err(_) => {
                        return Ok(Loading::Absent);
                    },
                };
                match Decompressor::plan(
                    sources.data_offset,
                    sources.cn_start,
                    sources.rt_start,
                    sources.rt_len,
                    &reset_table,
                    &ctl,
                    file_len,
                ) {
                    Ok(l) => Ok(Loading::Offsets { layout: l }),
                    Err(e) => Err(e),
                }
            },
            Loading::Offsets { layout } => {
                match Decompressor::new(&layout, bytes) {
                    Ok(decompressor) => Ok(Loading::Ready { decompressor }),
                    Err(e) => Err(e),
                }
            },
            other => Ok(other),
        }
    }
}

/// How an entry is read.
#[derive(Debug, Clone, Copy, PartialEq, Eq, Structural)]
pub enum ReadPlan {
    /// The entry is empty.
    Empty,
    /// The entry is this range of the file.
    Plain { span: Span },
    /// The entry is this range of the compressed section.
    Compressed { start: u64, len: u64 },
}

/// How an entry is read from a file of `file_len` bytes. What is stored compressed, be it
/// empty, takes a section to read it from. The range of a plain entry is checked before
/// anything is allocated, so a corrupt length cannot request a huge buffer.
pub open spec fn read_plan(
    entry: EntryRecord,
    data_offset: u64,
    file_len: u64,
    has_compression: bool,
) -> core::result::Result<ReadPlan, Fault> {
    let offset = data_offset + entry.start;
    if entry.space != SPACE_UNCOMPRESSED && !has_compression {
        Err(Fault::NoCompression)
    } else if entry.length == 0 {
        Ok(ReadPlan::Empty)
    } else if entry.space == SPACE_UNCOMPRESSED {
        if offset + entry.length > u64::MAX {
            Err(Fault::Overflow)
        } else if offset + entry.length > file_len {
            Err(Fault::BadPmgl)
        } else if entry.length > usize::MAX {
            Err(Fault::Overflow)
        } else {
            Ok(
                ReadPlan::Plain {
                    span: Span { offset: offset as u64, len: entry.length as usize },
                },
            )
        }
    } else if entry.space == SPACE_COMPRESSED {
        Ok(ReadPlan::Compressed { start: entry.start, len: entry.length })
    } else {
        Err(Fault::NoCompression)
    }
}

/// A plain entry is only read if it lies inside the file, and any other one only if there is
/// a section to read it from; one that there is no section for is reported as such.
pub proof fn lemma_reads_are_backed(
    entry: EntryRecord,
    data_offset: u64,
    file_len: u64,
    has_compression: bool,
)
    ensures
        match read_plan(entry, data_offset, file_len, has_compression) {
            Ok(ReadPlan::Empty) => entry.length == 0,
            Ok(ReadPlan::Plain { span }) => span.offset + span.len <= file_len && span.len
                == entry.length,
            Ok(ReadPlan::Compressed { start, len }) => has_compression && start == entry.start
                && len == entry.length,
            Err(_) => true,
        },
        entry.space != SPACE_UNCOMPRESSED && !has_compression ==> read_plan(
            entry,
            data_offset,
            file_len,
            has_compression,
        ) == Err::<ReadPlan, _>(Fault::NoCompression),
{
}

/// A parsed CHM archive, apart from the file that it was parsed from.
pub struct Archive {
    pub file_len: u64,
    pub data_offset: u64,
    pub directory: Directory,
    pub decompressor: Option<Decompressor>,
}

impl Archive {
    /// The decompressor, if there is one, is in a valid state.
    pub open spec fn wf(&self) -> bool {
        self.decompressor matches Some(d) ==> d.wf()
    }

    /// Whether the archive has a usable `MSCompressed` section.
    ///
    /// When this is `false`, reading an entry stored in that section fails with
    /// [`ChmError::NoCompression`].
    #[must_use]
    pub fn has_compression(&self) -> (r: bool)
        ensures
            r == (self.decompressor is Some),
    {
        self.decompressor.is_some()
    }

    /// How an entry is read.
    pub fn plan_read(&self, entry: &Entry) -> (r: Result<ReadPlan>)
        ensures
            outcome(r) == read_plan(
                entry@,
                self.data_offset,
                self.file_len,
                self.decompressor is Some,
            ),
    {
        if entry.space != SPACE_UNCOMPRESSED && !self.has_compression() {
            return Err(ChmError::NoCompression);
        }
        if entry.length == 0 {
            return Ok(ReadPlan::Empty);
        }
        if entry.space == SPACE_UNCOMPRESSED {
            let offset: u64 = match self.data_offset.checked_add(entry.start) {
                Some(v) => v,
                None => {
                    return Err(ChmError::Overflow);
                },
            };
            let end: u64 = match offset.checked_add(entry.length) {
                Some(v) => v,
                None => {
                    return Err(ChmError::Overflow);
                },
            };
            if end > self.file_len {
                return Err(ChmError::BadPmgl);
            }
            if entry.length > usize::MAX as u64 {
                return Err(ChmError::Overflow);
            }
            Ok(ReadPlan::Plain { span: Span { offset, len: entry.length as usize } })
        } else if entry.space == SPACE_COMPRESSED {
            Ok(ReadPlan::Compressed { start: entry.start, len: entry.length })
        } else {
            Err(ChmError::NoCompression)
        }
    }
}

} // verus!
