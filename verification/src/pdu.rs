//! Typed protocol data units and their identifier registry.
//!
//! Each concrete message type is bound to a stable numeric identifier; the
//! binding is append-only, an identifier is never reassigned once released.
//! Encoding serializes a message's fields in a fixed schema order (every
//! number a varint, every byte string length-prefixed) and wraps them in a
//! frame. Decoding reads a frame and dispatches on its identifier; an
//! unregistered identifier is not an error but yields the `Pdu::Invalid`
//! sentinel carrying the raw identifier, so that a peer built from a newer
//! protocol revision can be tolerated rather than dropped.

use crate::frame::{decode_frame, encode_frame, frame_bytes, frame_parse};
use crate::varint::{
    decode_unsigned, encode_unsigned, varint_bytes, varint_len, varint_parse, write_varint,
};
use crate::CodecError;
use vstd::prelude::*;
use vstd::seq_lib::{lemma_concat_associative, lemma_seq_append_take_skip, lemma_seq_skip_of_skip};

verus! {

/// Identifier of a session pane, as the surrounding session layer numbers
/// them; opaque to the codec.
pub type TabId = usize;

/// The identifiers bound to concrete message types. Append-only numbering:
/// retiring a message retires its identifier, the number is not reused.
pub open spec fn registered_ident(ident: u64) -> bool {
    1 <= ident <= 6
}

/// Heartbeat request. Empty body.
#[derive(Debug, PartialEq, Eq, Clone)]
pub struct Ping {}

/// Heartbeat response. Empty body.
#[derive(Debug, PartialEq, Eq, Clone)]
pub struct Pong {}

/// Asks for the list of panes. Empty body.
#[derive(Debug, PartialEq, Eq, Clone)]
pub struct ListTabs {}

/// One pane in a [`ListTabsResponse`]: its identifier and the bytes of its
/// display name.
#[derive(Debug, PartialEq, Eq, Clone)]
pub struct TabEntry {
    pub tab_id: TabId,
    pub title: Vec<u8>,
}

/// Mathematical model of a [`TabEntry`].
pub struct TabEntryModel {
    pub tab_id: TabId,
    pub title: Seq<u8>,
}

impl View for TabEntry {
    type V = TabEntryModel;

    open spec fn view(&self) -> TabEntryModel {
        TabEntryModel { tab_id: self.tab_id, title: self.title@ }
    }
}

/// The models of a sequence of pane entries, element by element.
pub open spec fn tab_seq_view(ts: Seq<TabEntry>) -> Seq<TabEntryModel> {
    ts.map_values(|t: TabEntry| t@)
}

/// The panes known to the peer, in wire order.
#[derive(Debug, PartialEq, Eq, Clone)]
pub struct ListTabsResponse {
    pub tabs: Vec<TabEntry>,
}

/// Mathematical model of a [`ListTabsResponse`].
pub struct ListTabsResponseModel {
    pub tabs: Seq<TabEntryModel>,
}

impl View for ListTabsResponse {
    type V = ListTabsResponseModel;

    open spec fn view(&self) -> ListTabsResponseModel {
        ListTabsResponseModel { tabs: tab_seq_view(self.tabs@) }
    }
}

/// Asks for the coarse renderable state of one pane.
#[derive(Debug, PartialEq, Eq, Clone)]
pub struct GetCoarseTabRenderableData {
    pub tab_id: TabId,
}

/// Where the cursor stands: column, and visible row (which may be negative
/// while scrolled).
#[derive(Debug, PartialEq, Eq, Clone, Copy)]
pub struct CursorPosition {
    pub x: usize,
    pub y: i64,
}

/// A snapshot of one terminal line: the bytes of its visible text.
#[derive(Debug, PartialEq, Eq, Clone)]
pub struct Line {
    pub text: Vec<u8>,
}

impl View for Line {
    type V = Seq<u8>;

    open spec fn view(&self) -> Seq<u8> {
        self.text@
    }
}

/// A hyperlink context shared by highlighted cells: the bytes of its URI.
#[derive(Debug, PartialEq, Eq, Clone)]
pub struct Hyperlink {
    pub uri: Vec<u8>,
}

impl View for Hyperlink {
    type V = Seq<u8>;

    open spec fn view(&self) -> Seq<u8> {
        self.uri@
    }
}

/// One line that changed since the last request, with its selection span.
#[derive(Debug, PartialEq, Eq, Clone)]
pub struct DirtyLine {
    pub line_idx: usize,
    pub line: Line,
    pub selection_col_from: usize,
    pub selection_col_to: usize,
}

/// Mathematical model of a [`DirtyLine`].
pub struct DirtyLineModel {
    pub line_idx: usize,
    pub line: Seq<u8>,
    pub selection_col_from: usize,
    pub selection_col_to: usize,
}

impl View for DirtyLine {
    type V = DirtyLineModel;

    open spec fn view(&self) -> DirtyLineModel {
        DirtyLineModel {
            line_idx: self.line_idx,
            line: self.line@,
            selection_col_from: self.selection_col_from,
            selection_col_to: self.selection_col_to,
        }
    }
}

/// The models of a sequence of dirty lines, element by element.
pub open spec fn dirty_seq_view(ds: Seq<DirtyLine>) -> Seq<DirtyLineModel> {
    ds.map_values(|d: DirtyLine| d@)
}

/// The coarse renderable state of one pane.
#[derive(Debug, PartialEq, Eq, Clone)]
pub struct GetCoarseTabRenderableDataResponse {
    pub cursor_position: CursorPosition,
    pub physical_rows: usize,
    pub physical_cols: usize,
    pub current_highlight: Option<Hyperlink>,
    pub dirty_lines: Vec<DirtyLine>,
}

/// Mathematical model of a [`GetCoarseTabRenderableDataResponse`].
pub struct CoarseResponseModel {
    pub cursor_position: CursorPosition,
    pub physical_rows: usize,
    pub physical_cols: usize,
    pub current_highlight: Option<Seq<u8>>,
    pub dirty_lines: Seq<DirtyLineModel>,
}

impl View for GetCoarseTabRenderableDataResponse {
    type V = CoarseResponseModel;

    open spec fn view(&self) -> CoarseResponseModel {
        CoarseResponseModel {
            cursor_position: self.cursor_position,
            physical_rows: self.physical_rows,
            physical_cols: self.physical_cols,
            current_highlight: match self.current_highlight {
                None => None,
                Some(h) => Some(h@),
            },
            dirty_lines: dirty_seq_view(self.dirty_lines@),
        }
    }
}

/// A protocol data unit: one application message, or the decode-only
/// `Invalid` sentinel carrying an identifier this build does not know.
/// `Invalid` is never constructed for sending.
#[derive(Debug, PartialEq, Eq)]
pub enum Pdu {
    Invalid { ident: u64 },
    Ping(Ping),
    Pong(Pong),
    ListTabs(ListTabs),
    ListTabsResponse(ListTabsResponse),
    GetCoarseTabRenderableData(GetCoarseTabRenderableData),
    GetCoarseTabRenderableDataResponse(GetCoarseTabRenderableDataResponse),
}

/// Mathematical model of a [`Pdu`].
pub enum PduModel {
    Invalid { ident: u64 },
    Ping(Ping),
    Pong(Pong),
    ListTabs(ListTabs),
    ListTabsResponse(ListTabsResponseModel),
    GetCoarseTabRenderableData(GetCoarseTabRenderableData),
    GetCoarseTabRenderableDataResponse(CoarseResponseModel),
}

impl View for Pdu {
    type V = PduModel;

    open spec fn view(&self) -> PduModel {
        match self {
            Pdu::Invalid { ident } => PduModel::Invalid { ident: *ident },
            Pdu::Ping(m) => PduModel::Ping(*m),
            Pdu::Pong(m) => PduModel::Pong(*m),
            Pdu::ListTabs(m) => PduModel::ListTabs(*m),
            Pdu::ListTabsResponse(m) => PduModel::ListTabsResponse(m@),
            Pdu::GetCoarseTabRenderableData(m) => PduModel::GetCoarseTabRenderableData(*m),
            Pdu::GetCoarseTabRenderableDataResponse(m) => {
                PduModel::GetCoarseTabRenderableDataResponse(m@)
            },
        }
    }
}

/// The serial carried on the wire, paired with the decoded message.
#[derive(Debug, PartialEq, Eq)]
pub struct DecodedPdu {
    pub serial: u64,
    pub pdu: Pdu,
}

/// Mathematical model of a [`DecodedPdu`].
pub struct DecodedPduModel {
    pub serial: u64,
    pub pdu: PduModel,
}

impl View for DecodedPdu {
    type V = DecodedPduModel;

    open spec fn view(&self) -> DecodedPduModel {
        DecodedPduModel { serial: self.serial, pdu: self.pdu@ }
    }
}

// ---------------------------------------------------------------------------
// Schema: the payload byte layout of each message, field by field in fixed
// order. Numbers are varints; byte strings are a varint length then the raw
// bytes; an optional value is a presence byte (0 or 1) then, if present, the
// value; a sequence is a varint count then its elements.
// ---------------------------------------------------------------------------

/// A length-prefixed byte string field.
pub open spec fn bytes_field(b: Seq<u8>) -> Seq<u8> {
    varint_bytes(b.len()) + b
}

/// The signed row index mapped onto an unsigned varint value: non-negative
/// `y` to `2*y`, negative `y` to `-2*y - 1`, so small magnitudes stay short.
pub open spec fn zigzag64(y: i64) -> nat {
    if y >= 0 {
        (2 * (y as int)) as nat
    } else {
        (-2 * (y as int) - 1) as nat
    }
}

/// Inverse of [`zigzag64`].
pub open spec fn unzigzag64(m: u64) -> int {
    if m % 2 == 0 {
        (m as int) / 2
    } else {
        -(((m as int) + 1) / 2)
    }
}

pub open spec fn tab_entry_bytes(t: TabEntryModel) -> Seq<u8> {
    varint_bytes(t.tab_id as nat) + bytes_field(t.title)
}

pub open spec fn tab_entries_bytes(ts: Seq<TabEntryModel>) -> Seq<u8>
    decreases ts.len(),
{
    if ts.len() == 0 {
        Seq::empty()
    } else {
        tab_entry_bytes(ts[0]) + tab_entries_bytes(ts.skip(1))
    }
}

pub open spec fn list_tabs_response_bytes(m: ListTabsResponseModel) -> Seq<u8> {
    varint_bytes(m.tabs.len()) + tab_entries_bytes(m.tabs)
}

pub open spec fn highlight_bytes(h: Option<Seq<u8>>) -> Seq<u8> {
    match h {
        None => seq![0u8],
        Some(u) => seq![1u8] + bytes_field(u),
    }
}

pub open spec fn dirty_line_bytes(d: DirtyLineModel) -> Seq<u8> {
    varint_bytes(d.line_idx as nat) + (bytes_field(d.line) + (varint_bytes(
        d.selection_col_from as nat,
    ) + varint_bytes(d.selection_col_to as nat)))
}

pub open spec fn dirty_lines_bytes(ds: Seq<DirtyLineModel>) -> Seq<u8>
    decreases ds.len(),
{
    if ds.len() == 0 {
        Seq::empty()
    } else {
        dirty_line_bytes(ds[0]) + dirty_lines_bytes(ds.skip(1))
    }
}

pub open spec fn coarse_response_bytes(m: CoarseResponseModel) -> Seq<u8> {
    varint_bytes(m.cursor_position.x as nat) + (varint_bytes(zigzag64(m.cursor_position.y)) + (
    varint_bytes(m.physical_rows as nat) + (varint_bytes(m.physical_cols as nat) + (
    highlight_bytes(m.current_highlight) + (varint_bytes(m.dirty_lines.len())
        + dirty_lines_bytes(m.dirty_lines))))))
}

/// The registry, type to identifier. `Invalid` keeps the raw identifier it
/// was decoded from; it is never encoded.
pub open spec fn pdu_ident(p: PduModel) -> u64 {
    match p {
        PduModel::Invalid { ident } => ident,
        PduModel::Ping(_) => 1,
        PduModel::Pong(_) => 2,
        PduModel::ListTabs(_) => 3,
        PduModel::ListTabsResponse(_) => 4,
        PduModel::GetCoarseTabRenderableData(_) => 5,
        PduModel::GetCoarseTabRenderableDataResponse(_) => 6,
    }
}

/// The payload bytes a message serializes to.
pub open spec fn pdu_payload(p: PduModel) -> Seq<u8> {
    match p {
        PduModel::Invalid { .. } => Seq::empty(),
        PduModel::Ping(_) => Seq::empty(),
        PduModel::Pong(_) => Seq::empty(),
        PduModel::ListTabs(_) => Seq::empty(),
        PduModel::ListTabsResponse(m) => list_tabs_response_bytes(m),
        PduModel::GetCoarseTabRenderableData(m) => varint_bytes(m.tab_id as nat),
        PduModel::GetCoarseTabRenderableDataResponse(m) => coarse_response_bytes(m),
    }
}

/// The full wire form of a message with its serial: its payload framed under
/// its identifier.
pub open spec fn pdu_wire(p: PduModel, serial: u64) -> Seq<u8> {
    frame_bytes(serial, pdu_ident(p), pdu_payload(p))
}

// ---------------------------------------------------------------------------
// Schema, reading direction. Each parser consumes from the front of a byte
// sequence; the per-message parsers demand that the payload is consumed
// exactly.
// ---------------------------------------------------------------------------

/// Reads one length-prefixed byte string field.
pub open spec fn bytes_field_parse(s: Seq<u8>) -> Option<(Seq<u8>, nat)> {
    match varint_parse(s) {
        None => None,
        Some((n, k)) => if n as nat > usize::MAX as nat || s.len() < k + n {
            None
        } else {
            Some((s.subrange(k as int, k + n as int), k + n as nat))
        },
    }
}

pub open spec fn tab_entry_parse(s: Seq<u8>) -> Option<(TabEntryModel, nat)> {
    match varint_parse(s) {
        None => None,
        Some((tid, k0)) => if tid as nat > usize::MAX as nat {
            None
        } else {
            match bytes_field_parse(s.skip(k0 as int)) {
                None => None,
                Some((title, k1)) => Some(
                    ((TabEntryModel { tab_id: tid as usize, title }), k0 + k1),
                ),
            }
        },
    }
}

pub open spec fn tab_entries_parse(s: Seq<u8>, count: nat) -> Option<Seq<TabEntryModel>>
    decreases count,
{
    if count == 0 {
        if s.len() == 0 {
            Some(Seq::empty())
        } else {
            None
        }
    } else {
        match tab_entry_parse(s) {
            None => None,
            Some((t, k)) => match tab_entries_parse(s.skip(k as int), (count - 1) as nat) {
                None => None,
                Some(rest) => Some(seq![t] + rest),
            },
        }
    }
}

pub open spec fn list_tabs_response_parse(s: Seq<u8>) -> Option<ListTabsResponseModel> {
    match varint_parse(s) {
        None => None,
        Some((count, k)) => match tab_entries_parse(s.skip(k as int), count as nat) {
            None => None,
            Some(ts) => Some((ListTabsResponseModel { tabs: ts })),
        },
    }
}

pub open spec fn highlight_parse(s: Seq<u8>) -> Option<(Option<Seq<u8>>, nat)> {
    if s.len() == 0 {
        None
    } else if s[0] == 0 {
        Some((None, 1nat))
    } else if s[0] == 1 {
        match bytes_field_parse(s.skip(1)) {
            None => None,
            Some((u, k)) => Some((Some(u), k + 1)),
        }
    } else {
        None
    }
}

pub open spec fn dirty_line_parse(s: Seq<u8>) -> Option<(DirtyLineModel, nat)> {
    match varint_parse(s) {
        None => None,
        Some((idx, k0)) => if idx as nat > usize::MAX as nat {
            None
        } else {
            match bytes_field_parse(s.skip(k0 as int)) {
                None => None,
                Some((line, k1)) => match varint_parse(s.skip(k0 + k1 as int)) {
                    None => None,
                    Some((from, k2)) => if from as nat > usize::MAX as nat {
                        None
                    } else {
                        match varint_parse(s.skip(k0 + k1 + k2 as int)) {
                            None => None,
                            Some((to, k3)) => if to as nat > usize::MAX as nat {
                                None
                            } else {
                                Some(
                                    ((DirtyLineModel {
                                        line_idx: idx as usize,
                                        line,
                                        selection_col_from: from as usize,
                                        selection_col_to: to as usize,
                                    }), k0 + k1 + k2 + k3),
                                )
                            },
                        }
                    },
                },
            }
        },
    }
}

pub open spec fn dirty_lines_parse(s: Seq<u8>, count: nat) -> Option<Seq<DirtyLineModel>>
    decreases count,
{
    if count == 0 {
        if s.len() == 0 {
            Some(Seq::empty())
        } else {
            None
        }
    } else {
        match dirty_line_parse(s) {
            None => None,
            Some((d, k)) => match dirty_lines_parse(s.skip(k as int), (count - 1) as nat) {
                None => None,
                Some(rest) => Some(seq![d] + rest),
            },
        }
    }
}

pub open spec fn coarse_response_parse(s: Seq<u8>) -> Option<CoarseResponseModel> {
    match varint_parse(s) {
        None => None,
        Some((x, k0)) => if x as nat > usize::MAX as nat {
            None
        } else {
            match varint_parse(s.skip(k0 as int)) {
                None => None,
                Some((zz, k1)) => match varint_parse(s.skip(k0 + k1 as int)) {
                    None => None,
                    Some((rows, k2)) => if rows as nat > usize::MAX as nat {
                        None
                    } else {
                        match varint_parse(s.skip(k0 + k1 + k2 as int)) {
                            None => None,
                            Some((cols, k3)) => if cols as nat > usize::MAX as nat {
                                None
                            } else {
                                match highlight_parse(s.skip(k0 + k1 + k2 + k3 as int)) {
                                    None => None,
                                    Some((h, k4)) => match varint_parse(
                                        s.skip(k0 + k1 + k2 + k3 + k4 as int),
                                    ) {
                                        None => None,
                                        Some((cnt, k5)) => match dirty_lines_parse(
                                            s.skip(k0 + k1 + k2 + k3 + k4 + k5 as int),
                                            cnt as nat,
                                        ) {
                                            None => None,
                                            Some(ds) => Some(
                                                ((CoarseResponseModel {
                                                    cursor_position: (CursorPosition {
                                                        x: x as usize,
                                                        y: unzigzag64(zz) as i64,
                                                    }),
                                                    physical_rows: rows as usize,
                                                    physical_cols: cols as usize,
                                                    current_highlight: h,
                                                    dirty_lines: ds,
                                                })),
                                            ),
                                        },
                                    },
                                }
                            },
                        }
                    },
                },
            }
        },
    }
}

/// Dispatch on a frame's identifier: a registered identifier demands a
/// payload in that message's schema, consumed exactly; an unregistered one
/// succeeds with the `Invalid` sentinel, whatever the payload holds.
pub open spec fn payload_parse(ident: u64, s: Seq<u8>) -> Option<PduModel> {
    if ident == 1 {
        if s.len() == 0 {
            Some(PduModel::Ping(Ping {}))
        } else {
            None
        }
    } else if ident == 2 {
        if s.len() == 0 {
            Some(PduModel::Pong(Pong {}))
        } else {
            None
        }
    } else if ident == 3 {
        if s.len() == 0 {
            Some(PduModel::ListTabs(ListTabs {}))
        } else {
            None
        }
    } else if ident == 4 {
        match list_tabs_response_parse(s) {
            None => None,
            Some(m) => Some(PduModel::ListTabsResponse(m)),
        }
    } else if ident == 5 {
        match varint_parse(s) {
            None => None,
            Some((tid, k)) => if tid as nat > usize::MAX as nat || k != s.len() {
                None
            } else {
                Some(PduModel::GetCoarseTabRenderableData((GetCoarseTabRenderableData {
                    tab_id: tid as usize,
                })))
            },
        }
    } else if ident == 6 {
        match coarse_response_parse(s) {
            None => None,
            Some(m) => Some(PduModel::GetCoarseTabRenderableDataResponse(m)),
        }
    } else {
        Some(PduModel::Invalid { ident })
    }
}

/// Reads one message from the front of `s`: frame first, then the payload
/// under the frame's identifier. A bad frame is a `Format` error; a payload
/// that does not match a registered identifier's schema is an `Encoding`
/// error; an unregistered identifier succeeds as `Invalid`.
pub open spec fn pdu_parse(s: Seq<u8>) -> Result<DecodedPduModel, CodecError> {
    match frame_parse(s) {
        None => Err(CodecError::Format),
        Some((f, _used)) => match payload_parse(f.ident, f.payload) {
            None => Err(CodecError::Encoding),
            Some(p) => Ok((DecodedPduModel { serial: f.serial, pdu: p })),
        },
    }
}

// ---------------------------------------------------------------------------
// Executable encoding.
// ---------------------------------------------------------------------------

fn zigzag_encode(y: i64) -> (m: u64)
    ensures
        m as nat == zigzag64(y),
{
    if y >= 0 {
        (y as u64) * 2
    } else {
        (-(y + 1)) as u64 * 2 + 1
    }
}

fn zigzag_decode(m: u64) -> (y: i64)
    ensures
        y as int == unzigzag64(m),
{
    if m % 2 == 0 {
        (m / 2) as i64
    } else {
        -((m / 2) as i64) - 1
    }
}

/// Appends a length-prefixed byte string field to `out`.
fn write_bytes_field(out: &mut Vec<u8>, b: &Vec<u8>)
    ensures
        final(out)@ == old(out)@ + bytes_field(b@),
{
    write_varint(out, b.len() as u64);
    let mut tail: Vec<u8> = vstd::slice::slice_to_vec(b.as_slice());
    out.append(&mut tail);
}

fn encode_list_tabs_response_payload(m: &ListTabsResponse) -> (out: Vec<u8>)
    ensures
        out@ == list_tabs_response_bytes(m@),
{
    let ghost ts = m@.tabs;
    let mut out: Vec<u8> = Vec::new();
    write_varint(&mut out, m.tabs.len() as u64);
    let n: usize = m.tabs.len();
    proof {
        assert(ts.skip(0) =~= ts);
    }
    let mut i: usize = 0;
    while i < n
        invariant
            i <= n,
            n == m.tabs.len(),
            ts == m@.tabs,
            out@ + tab_entries_bytes(ts.skip(i as int)) == list_tabs_response_bytes(m@),
        decreases n - i,
    {
        let t: &TabEntry = &m.tabs[i];
        write_varint(&mut out, t.tab_id as u64);
        write_bytes_field(&mut out, &t.title);
        proof {
            assert(ts.skip(i as int).skip(1) =~= ts.skip(i + 1));
            assert(ts.skip(i as int)[0] == t@);
        }
        i = i + 1;
    }
    proof {
        assert(ts.skip(n as int) =~= Seq::<TabEntryModel>::empty());
        assert(out@ =~= list_tabs_response_bytes(m@));
    }
    out
}

fn encode_coarse_response_payload(m: &GetCoarseTabRenderableDataResponse) -> (out: Vec<u8>)
    ensures
        out@ == coarse_response_bytes(m@),
{
    let ghost ds = m@.dirty_lines;
    let mut out: Vec<u8> = Vec::new();
    write_varint(&mut out, m.cursor_position.x as u64);
    write_varint(&mut out, zigzag_encode(m.cursor_position.y));
    write_varint(&mut out, m.physical_rows as u64);
    write_varint(&mut out, m.physical_cols as u64);
    match &m.current_highlight {
        None => {
            out.push(0);
        },
        Some(h) => {
            out.push(1);
            write_bytes_field(&mut out, &h.uri);
            proof {
                assert(highlight_bytes(m@.current_highlight) =~= seq![1u8] + bytes_field(h.uri@));
            }
        },
    }
    write_varint(&mut out, m.dirty_lines.len() as u64);
    let n: usize = m.dirty_lines.len();
    proof {
        let a1 = varint_bytes(m.cursor_position.x as nat);
        let a2 = varint_bytes(zigzag64(m.cursor_position.y));
        let a3 = varint_bytes(m.physical_rows as nat);
        let a4 = varint_bytes(m.physical_cols as nat);
        let a5 = highlight_bytes(m@.current_highlight);
        let a6 = varint_bytes(ds.len());
        let a7 = dirty_lines_bytes(ds);
        assert(out@ =~= ((((a1 + a2) + a3) + a4) + a5) + a6);
        lemma_concat_associative(((((a1 + a2) + a3) + a4) + a5), a6, a7);
        lemma_concat_associative((((a1 + a2) + a3) + a4), a5, a6 + a7);
        lemma_concat_associative(((a1 + a2) + a3), a4, a5 + (a6 + a7));
        lemma_concat_associative((a1 + a2), a3, a4 + (a5 + (a6 + a7)));
        lemma_concat_associative(a1, a2, a3 + (a4 + (a5 + (a6 + a7))));
        assert(ds.skip(0) =~= ds);
        assert(out@ + dirty_lines_bytes(ds.skip(0)) == coarse_response_bytes(m@));
    }
    let mut i: usize = 0;
    while i < n
        invariant
            i <= n,
            n == m.dirty_lines.len(),
            ds == m@.dirty_lines,
            out@ + dirty_lines_bytes(ds.skip(i as int)) == coarse_response_bytes(m@),
        decreases n - i,
    {
        let d: &DirtyLine = &m.dirty_lines[i];
        write_varint(&mut out, d.line_idx as u64);
        write_bytes_field(&mut out, &d.line.text);
        write_varint(&mut out, d.selection_col_from as u64);
        write_varint(&mut out, d.selection_col_to as u64);
        proof {
            assert(ds.skip(i as int).skip(1) =~= ds.skip(i + 1));
            assert(ds.skip(i as int)[0] == d@);
        }
        i = i + 1;
    }
    proof {
        assert(ds.skip(n as int) =~= Seq::<DirtyLineModel>::empty());
        assert(out@ =~= coarse_response_bytes(m@));
    }
    out
}

/// Frames an already-serialized payload under `ident`, unless it is too
/// large for the declared length to be computed in a `usize`.
fn encode_with(ident: u64, serial: u64, payload: Vec<u8>) -> (r: Result<Vec<u8>, CodecError>)
    ensures
        match r {
            Ok(out) => payload@.len() + 20 <= usize::MAX && out@ == frame_bytes(
                serial,
                ident,
                payload@,
            ),
            Err(e) => e == CodecError::Encoding && payload@.len() + 20 > usize::MAX,
        },
{
    if payload.len() > usize::MAX - 20 {
        return Err(CodecError::Encoding);
    }
    Ok(encode_frame(ident, serial, payload.as_slice()))
}

impl Pdu {
    /// Serializes the message's fields in schema order, looks up its
    /// identifier, and frames the result. Fails with `CodecError::Encoding`
    /// exactly when the message is the decode-only `Invalid` sentinel, or
    /// when its payload is too large for a frame length to be computed.
    pub fn encode(&self, serial: u64) -> (r: Result<Vec<u8>, CodecError>)
        ensures
            match r {
                Ok(out) => {
                    &&& !(self@ is Invalid)
                    &&& pdu_payload(self@).len() + 20 <= usize::MAX
                    &&& out@ == pdu_wire(self@, serial)
                },
                Err(e) => {
                    &&& e == CodecError::Encoding
                    &&& (self@ is Invalid || pdu_payload(self@).len() + 20 > usize::MAX)
                },
            },
    {
        match self {
            Pdu::Invalid { .. } => Err(CodecError::Encoding),
            Pdu::Ping(_) => encode_with(1, serial, Vec::new()),
            Pdu::Pong(_) => encode_with(2, serial, Vec::new()),
            Pdu::ListTabs(_) => encode_with(3, serial, Vec::new()),
            Pdu::ListTabsResponse(m) => encode_with(
                4,
                serial,
                encode_list_tabs_response_payload(m),
            ),
            Pdu::GetCoarseTabRenderableData(m) => encode_with(
                5,
                serial,
                encode_unsigned(m.tab_id as u64),
            ),
            Pdu::GetCoarseTabRenderableDataResponse(m) => encode_with(
                6,
                serial,
                encode_coarse_response_payload(m),
            ),
        }
    }
}

// ---------------------------------------------------------------------------
// Executable decoding.
// ---------------------------------------------------------------------------

/// Reads one length-prefixed byte string field of a payload.
fn read_bytes_field(data: &[u8], pos: usize) -> (r: Result<(Vec<u8>, usize), CodecError>)
    requires
        pos <= data@.len(),
    ensures
        match r {
            Ok((b, n)) => {
                &&& bytes_field_parse(data@.skip(pos as int)) == Some((b@, n as nat))
                &&& pos + n <= data@.len()
                &&& 1 <= n
            },
            Err(e) => {
                &&& e == CodecError::Encoding
                &&& bytes_field_parse(data@.skip(pos as int)) is None
            },
        },
{
    let (len, k) = match decode_unsigned(data, pos) {
        Ok(x) => x,
        Err(_) => {
            return Err(CodecError::Encoding);
        },
    };
    if len > usize::MAX as u64 {
        return Err(CodecError::Encoding);
    }
    let avail: usize = data.len() - (pos + k);
    if len > avail as u64 {
        return Err(CodecError::Encoding);
    }
    let l: usize = len as usize;
    let piece = vstd::slice::slice_subrange(data, pos + k, pos + k + l);
    proof {
        assert(data@.skip(pos as int).subrange(k as int, k + len as int) =~= data@.subrange(
            (pos + k) as int,
            (pos + k + l) as int,
        ));
    }
    Ok((vstd::slice::slice_to_vec(piece), k + l))
}

fn decode_tab_entries(payload: &[u8], start: usize, count: u64) -> (r: Result<
    Vec<TabEntry>,
    CodecError,
>)
    requires
        start <= payload@.len(),
    ensures
        match r {
            Ok(tabs) => tab_entries_parse(payload@.skip(start as int), count as nat) == Some(
                tab_seq_view(tabs@),
            ),
            Err(e) => {
                &&& e == CodecError::Encoding
                &&& tab_entries_parse(payload@.skip(start as int), count as nat) is None
            },
        },
{
    let plen: usize = payload.len();
    let mut tabs: Vec<TabEntry> = Vec::new();
    let mut pos: usize = start;
    let mut i: u64 = 0;
    proof {
        assert(tab_seq_view(tabs@) =~= Seq::<TabEntryModel>::empty());
    }
    while i < count
        invariant
            i <= count,
            pos <= payload@.len(),
            payload@.len() == plen as nat,
            start <= payload@.len(),
            ({
                let whole = tab_entries_parse(payload@.skip(start as int), count as nat);
                match tab_entries_parse(payload@.skip(pos as int), (count - i) as nat) {
                    None => whole is None,
                    Some(ts2) => whole == Some(tab_seq_view(tabs@) + ts2),
                }
            }),
        decreases count - i,
    {
        let ghost suffix = payload@.skip(pos as int);
        let (tid, k0) = match decode_unsigned(payload, pos) {
            Ok(x) => x,
            Err(_) => {
                return Err(CodecError::Encoding);
            },
        };
        if tid > usize::MAX as u64 {
            return Err(CodecError::Encoding);
        }
        proof {
            assert(suffix.skip(k0 as int) =~= payload@.skip(pos + k0));
        }
        let (title, k1) = match read_bytes_field(payload, pos + k0) {
            Ok(x) => x,
            Err(_) => {
                return Err(CodecError::Encoding);
            },
        };
        let entry = TabEntry { tab_id: tid as usize, title };
        proof {
            assert(tab_entry_parse(suffix) == Some((entry@, (k0 + k1) as nat)));
            assert(suffix.skip((k0 + k1) as int) =~= payload@.skip(pos + k0 + k1));
            assert(tab_seq_view(tabs@.push(entry)) =~= tab_seq_view(tabs@).push(entry@));
            assert forall|ts2: Seq<TabEntryModel>|
                tab_seq_view(tabs@) + (seq![entry@] + ts2) =~= tab_seq_view(tabs@.push(entry))
                    + ts2 by {
                assert(tab_seq_view(tabs@.push(entry)) =~= tab_seq_view(tabs@).push(entry@));
            }
        }
        tabs.push(entry);
        pos = pos + k0 + k1;
        i = i + 1;
    }
    if pos != plen {
        return Err(CodecError::Encoding);
    }
    proof {
        assert(payload@.skip(pos as int).len() == 0);
        assert(tab_seq_view(tabs@) + Seq::<TabEntryModel>::empty() =~= tab_seq_view(tabs@));
    }
    Ok(tabs)
}

fn decode_list_tabs_response(payload: &[u8]) -> (r: Result<ListTabsResponse, CodecError>)
    ensures
        match r {
            Ok(m) => list_tabs_response_parse(payload@) == Some(m@),
            Err(e) => e == CodecError::Encoding && list_tabs_response_parse(payload@) is None,
        },
{
    proof {
        assert(payload@.skip(0) =~= payload@);
    }
    let (count, k) = match decode_unsigned(payload, 0) {
        Ok(x) => x,
        Err(_) => {
            return Err(CodecError::Encoding);
        },
    };
    match decode_tab_entries(payload, k, count) {
        Ok(tabs) => Ok(ListTabsResponse { tabs }),
        Err(e) => Err(e),
    }
}

fn decode_dirty_lines(payload: &[u8], start: usize, count: u64) -> (r: Result<
    Vec<DirtyLine>,
    CodecError,
>)
    requires
        start <= payload@.len(),
    ensures
        match r {
            Ok(ds) => dirty_lines_parse(payload@.skip(start as int), count as nat) == Some(
                dirty_seq_view(ds@),
            ),
            Err(e) => {
                &&& e == CodecError::Encoding
                &&& dirty_lines_parse(payload@.skip(start as int), count as nat) is None
            },
        },
{
    let plen: usize = payload.len();
    let mut lines: Vec<DirtyLine> = Vec::new();
    let mut pos: usize = start;
    let mut i: u64 = 0;
    proof {
        assert(dirty_seq_view(lines@) =~= Seq::<DirtyLineModel>::empty());
    }
    while i < count
        invariant
            i <= count,
            pos <= payload@.len(),
            payload@.len() == plen as nat,
            start <= payload@.len(),
            ({
                let whole = dirty_lines_parse(payload@.skip(start as int), count as nat);
                match dirty_lines_parse(payload@.skip(pos as int), (count - i) as nat) {
                    None => whole is None,
                    Some(ds2) => whole == Some(dirty_seq_view(lines@) + ds2),
                }
            }),
        decreases count - i,
    {
        let ghost suffix = payload@.skip(pos as int);
        let (idx, j0) = match decode_unsigned(payload, pos) {
            Ok(v) => v,
            Err(_) => {
                return Err(CodecError::Encoding);
            },
        };
        if idx > usize::MAX as u64 {
            return Err(CodecError::Encoding);
        }
        proof {
            assert(suffix.skip(j0 as int) =~= payload@.skip(pos + j0));
        }
        let (text, j1) = match read_bytes_field(payload, pos + j0) {
            Ok(v) => v,
            Err(_) => {
                return Err(CodecError::Encoding);
            },
        };
        proof {
            assert(suffix.skip(j0 + j1 as int) =~= payload@.skip(pos + j0 + j1));
        }
        let (from, j2) = match decode_unsigned(payload, pos + j0 + j1) {
            Ok(v) => v,
            Err(_) => {
                return Err(CodecError::Encoding);
            },
        };
        if from > usize::MAX as u64 {
            return Err(CodecError::Encoding);
        }
        proof {
            assert(suffix.skip(j0 + j1 + j2 as int) =~= payload@.skip(pos + j0 + j1 + j2));
        }
        let (to, j3) = match decode_unsigned(payload, pos + j0 + j1 + j2) {
            Ok(v) => v,
            Err(_) => {
                return Err(CodecError::Encoding);
            },
        };
        if to > usize::MAX as u64 {
            return Err(CodecError::Encoding);
        }
        let d = DirtyLine {
            line_idx: idx as usize,
            line: Line { text },
            selection_col_from: from as usize,
            selection_col_to: to as usize,
        };
        proof {
            assert(dirty_line_parse(suffix) == Some((d@, (j0 + j1 + j2 + j3) as nat)));
            assert(suffix.skip((j0 + j1 + j2 + j3) as int) =~= payload@.skip(
                pos + j0 + j1 + j2 + j3,
            ));
            assert(dirty_seq_view(lines@.push(d)) =~= dirty_seq_view(lines@).push(d@));
            assert forall|ds2: Seq<DirtyLineModel>|
                dirty_seq_view(lines@) + (seq![d@] + ds2) =~= dirty_seq_view(lines@.push(d))
                    + ds2 by {
                assert(dirty_seq_view(lines@.push(d)) =~= dirty_seq_view(lines@).push(d@));
            }
        }
        lines.push(d);
        pos = pos + j0 + j1 + j2 + j3;
        i = i + 1;
    }
    if pos != plen {
        return Err(CodecError::Encoding);
    }
    proof {
        assert(payload@.skip(pos as int).len() == 0);
        assert(dirty_seq_view(lines@) + Seq::<DirtyLineModel>::empty() =~= dirty_seq_view(lines@));
    }
    Ok(lines)
}

#[verifier::rlimit(60)]
fn decode_coarse_response(payload: &[u8]) -> (r: Result<
    GetCoarseTabRenderableDataResponse,
    CodecError,
>)
    ensures
        match r {
            Ok(m) => coarse_response_parse(payload@) == Some(m@),
            Err(e) => e == CodecError::Encoding && coarse_response_parse(payload@) is None,
        },
{
    let plen: usize = payload.len();
    proof {
        assert(payload@.skip(0) =~= payload@);
    }
    let (x, k0) = match decode_unsigned(payload, 0) {
        Ok(v) => v,
        Err(_) => {
            return Err(CodecError::Encoding);
        },
    };
    if x > usize::MAX as u64 {
        return Err(CodecError::Encoding);
    }
    let (zz, k1) = match decode_unsigned(payload, k0) {
        Ok(v) => v,
        Err(_) => {
            return Err(CodecError::Encoding);
        },
    };
    let (rows, k2) = match decode_unsigned(payload, k0 + k1) {
        Ok(v) => v,
        Err(_) => {
            return Err(CodecError::Encoding);
        },
    };
    if rows > usize::MAX as u64 {
        return Err(CodecError::Encoding);
    }
    let (cols, k3) = match decode_unsigned(payload, k0 + k1 + k2) {
        Ok(v) => v,
        Err(_) => {
            return Err(CodecError::Encoding);
        },
    };
    if cols > usize::MAX as u64 {
        return Err(CodecError::Encoding);
    }
    let hpos: usize = k0 + k1 + k2 + k3;
    let ghost hsuffix = payload@.skip(hpos as int);
    if hpos == plen {
        return Err(CodecError::Encoding);
    }
    let tag: u8 = *vstd::slice::slice_index_get(payload, hpos);
    let (highlight, k4): (Option<Hyperlink>, usize) = if tag == 0 {
        (None, 1)
    } else if tag == 1 {
        proof {
            assert(hsuffix.skip(1) =~= payload@.skip(hpos + 1));
        }
        let (uri, kb) = match read_bytes_field(payload, hpos + 1) {
            Ok(v) => v,
            Err(_) => {
                return Err(CodecError::Encoding);
            },
        };
        (Some(Hyperlink { uri }), kb + 1)
    } else {
        return Err(CodecError::Encoding);
    };
    let ghost hmodel: Option<Seq<u8>> = match &highlight {
        None => None,
        Some(h) => Some(h@),
    };
    proof {
        assert(highlight_parse(hsuffix) == Some((hmodel, k4 as nat)));
    }
    let cpos: usize = hpos + k4;
    let (cnt, k5) = match decode_unsigned(payload, cpos) {
        Ok(v) => v,
        Err(_) => {
            return Err(CodecError::Encoding);
        },
    };
    let lines = match decode_dirty_lines(payload, cpos + k5, cnt) {
        Ok(v) => v,
        Err(e) => {
            return Err(e);
        },
    };
    Ok(GetCoarseTabRenderableDataResponse {
        cursor_position: CursorPosition { x: x as usize, y: zigzag_decode(zz) },
        physical_rows: rows as usize,
        physical_cols: cols as usize,
        current_highlight: highlight,
        dirty_lines: lines,
    })
}

impl Pdu {
    /// Reads one frame from the front of `data` and dispatches on its
    /// identifier. A registered identifier demands a payload in that
    /// message's schema, else `CodecError::Encoding`; an unregistered one
    /// succeeds with `Pdu::Invalid`; a malformed frame is
    /// `CodecError::Format`. Bytes after the frame are ignored.
    pub fn decode(data: &[u8]) -> (r: Result<DecodedPdu, CodecError>)
        ensures
            match r {
                Ok(d) => pdu_parse(data@) == Ok::<DecodedPduModel, CodecError>(d@),
                Err(e) => pdu_parse(data@) == Err::<DecodedPduModel, CodecError>(e),
            },
    {
        let (frame, _used) = match decode_frame(data) {
            Ok(x) => x,
            Err(e) => {
                return Err(e);
            },
        };
        let payload = frame.payload.as_slice();
        let ident = frame.ident;
        let pdu: Pdu = if ident == 1 {
            if payload.len() != 0 {
                return Err(CodecError::Encoding);
            }
            Pdu::Ping(Ping {})
        } else if ident == 2 {
            if payload.len() != 0 {
                return Err(CodecError::Encoding);
            }
            Pdu::Pong(Pong {})
        } else if ident == 3 {
            if payload.len() != 0 {
                return Err(CodecError::Encoding);
            }
            Pdu::ListTabs(ListTabs {})
        } else if ident == 4 {
            match decode_list_tabs_response(payload) {
                Ok(m) => Pdu::ListTabsResponse(m),
                Err(e) => {
                    return Err(e);
                },
            }
        } else if ident == 5 {
            proof {
                assert(payload@.skip(0) =~= payload@);
            }
            let (tid, k) = match decode_unsigned(payload, 0) {
                Ok(v) => v,
                Err(_) => {
                    return Err(CodecError::Encoding);
                },
            };
            if tid > usize::MAX as u64 || k != payload.len() {
                return Err(CodecError::Encoding);
            }
            Pdu::GetCoarseTabRenderableData(GetCoarseTabRenderableData { tab_id: tid as usize })
        } else if ident == 6 {
            match decode_coarse_response(payload) {
                Ok(m) => Pdu::GetCoarseTabRenderableDataResponse(m),
                Err(e) => {
                    return Err(e);
                },
            }
        } else {
            Pdu::Invalid { ident }
        };
        Ok(DecodedPdu { serial: frame.serial, pdu })
    }
}

// ---------------------------------------------------------------------------
// Laws.
// ---------------------------------------------------------------------------

/// Sizes under which a message model can exist in memory at all: every byte
/// string and every sequence it holds fits a `usize`. The model of any value
/// built from real vectors satisfies this.
pub open spec fn pdu_wf(p: PduModel) -> bool {
    match p {
        PduModel::ListTabsResponse(m) => {
            &&& m.tabs.len() <= usize::MAX as nat
            &&& (forall|i: int|
                0 <= i < m.tabs.len() ==> (#[trigger] m.tabs[i]).title.len() <= usize::MAX as nat)
        },
        PduModel::GetCoarseTabRenderableDataResponse(m) => {
            &&& m.dirty_lines.len() <= usize::MAX as nat
            &&& (forall|i: int|
                0 <= i < m.dirty_lines.len() ==> (#[trigger] m.dirty_lines[i]).line.len()
                    <= usize::MAX as nat)
            &&& (match m.current_highlight {
                None => true,
                Some(u) => u.len() <= usize::MAX as nat,
            })
        },
        _ => true,
    }
}

proof fn lemma_bytes_field_round_trip(b: Seq<u8>, rest: Seq<u8>)
    requires
        b.len() <= usize::MAX as nat,
    ensures
        bytes_field_parse(bytes_field(b) + rest) == Some((b, bytes_field(b).len())),
        bytes_field(b).len() == varint_len(b.len()) + b.len(),
{
    let blen: u64 = b.len() as u64;
    let s = bytes_field(b) + rest;
    assert(s =~= varint_bytes(b.len()) + (b + rest));
    crate::varint::lemma_varint_parse_encoded(blen, b + rest);
    crate::varint::lemma_varint_bytes_len(b.len());
    let k = varint_len(b.len());
    assert(s.subrange(k as int, k + b.len() as int) =~= b);
}

proof fn lemma_tab_entry_round_trip(t: TabEntryModel, rest: Seq<u8>)
    requires
        t.title.len() <= usize::MAX as nat,
    ensures
        tab_entry_parse(tab_entry_bytes(t) + rest) == Some((t, tab_entry_bytes(t).len() as nat)),
{
    let s = tab_entry_bytes(t) + rest;
    let rest1 = bytes_field(t.title) + rest;
    assert(s =~= varint_bytes(t.tab_id as nat) + rest1);
    crate::varint::lemma_varint_parse_encoded(t.tab_id as u64, rest1);
    crate::varint::lemma_varint_bytes_len(t.tab_id as nat);
    let k0 = varint_len(t.tab_id as nat);
    assert(s.skip(k0 as int) =~= bytes_field(t.title) + rest);
    lemma_bytes_field_round_trip(t.title, rest);
}

proof fn lemma_tab_entries_round_trip(ts: Seq<TabEntryModel>)
    requires
        forall|i: int| 0 <= i < ts.len() ==> (#[trigger] ts[i]).title.len() <= usize::MAX as nat,
    ensures
        tab_entries_parse(tab_entries_bytes(ts), ts.len()) == Some(ts),
    decreases ts.len(),
{
    if ts.len() == 0 {
        assert(ts =~= Seq::<TabEntryModel>::empty());
    } else {
        let t = ts[0];
        let tail = ts.skip(1);
        lemma_tab_entry_round_trip(t, tab_entries_bytes(tail));
        let s = tab_entries_bytes(ts);
        let k = tab_entry_bytes(t).len();
        assert(s.skip(k as int) =~= tab_entries_bytes(tail));
        assert forall|i: int| 0 <= i < tail.len() implies (#[trigger] tail[i]).title.len()
            <= usize::MAX as nat by {
            assert(tail[i] == ts[i + 1]);
        }
        lemma_tab_entries_round_trip(tail);
        assert(seq![t] + tail =~= ts);
    }
}

proof fn lemma_highlight_round_trip(h: Option<Seq<u8>>, rest: Seq<u8>)
    requires
        match h {
            None => true,
            Some(u) => u.len() <= usize::MAX as nat,
        },
    ensures
        highlight_parse(highlight_bytes(h) + rest) == Some((h, highlight_bytes(h).len())),
{
    let s = highlight_bytes(h) + rest;
    match h {
        None => {
            assert(s[0] == 0);
        },
        Some(u) => {
            assert(s[0] == 1);
            assert(s.skip(1) =~= bytes_field(u) + rest);
            lemma_bytes_field_round_trip(u, rest);
        },
    }
}

#[verifier::rlimit(100)]
proof fn lemma_dirty_line_round_trip(d: DirtyLineModel, rest: Seq<u8>)
    requires
        d.line.len() <= usize::MAX as nat,
    ensures
        dirty_line_parse(dirty_line_bytes(d) + rest) == Some((d, dirty_line_bytes(d).len() as nat)),
{
    let s = dirty_line_bytes(d) + rest;
    let a1 = varint_bytes(d.line_idx as nat);
    let a2 = bytes_field(d.line);
    let a3 = varint_bytes(d.selection_col_from as nat);
    let a4 = varint_bytes(d.selection_col_to as nat);
    let r3 = a4 + rest;
    let r2 = a3 + r3;
    let r1 = a2 + r2;
    assert(s =~= a1 + r1);
    crate::varint::lemma_varint_bytes_len(d.line_idx as nat);
    crate::varint::lemma_varint_bytes_len(d.selection_col_from as nat);
    crate::varint::lemma_varint_bytes_len(d.selection_col_to as nat);
    let k0 = varint_len(d.line_idx as nat);
    let k1 = a2.len();
    let k2 = varint_len(d.selection_col_from as nat);
    crate::varint::lemma_varint_parse_encoded(d.line_idx as u64, r1);
    lemma_seq_append_take_skip(a1, r1, k0 as int);
    assert(s.skip(k0 as int) == r1);
    lemma_bytes_field_round_trip(d.line, r2);
    lemma_seq_append_take_skip(a2, r2, k1 as int);
    lemma_seq_skip_of_skip(s, k0 as int, k1 as int);
    assert(s.skip(k0 + k1 as int) == r2);
    crate::varint::lemma_varint_parse_encoded(d.selection_col_from as u64, r3);
    lemma_seq_append_take_skip(a3, r3, k2 as int);
    lemma_seq_skip_of_skip(s, (k0 + k1) as int, k2 as int);
    assert(s.skip(k0 + k1 + k2 as int) == r3);
    crate::varint::lemma_varint_parse_encoded(d.selection_col_to as u64, rest);
}

proof fn lemma_dirty_lines_round_trip(ds: Seq<DirtyLineModel>)
    requires
        forall|i: int| 0 <= i < ds.len() ==> (#[trigger] ds[i]).line.len() <= usize::MAX as nat,
    ensures
        dirty_lines_parse(dirty_lines_bytes(ds), ds.len()) == Some(ds),
    decreases ds.len(),
{
    if ds.len() == 0 {
        assert(ds =~= Seq::<DirtyLineModel>::empty());
    } else {
        let d = ds[0];
        let tail = ds.skip(1);
        lemma_dirty_line_round_trip(d, dirty_lines_bytes(tail));
        let s = dirty_lines_bytes(ds);
        let k = dirty_line_bytes(d).len();
        assert(s.skip(k as int) =~= dirty_lines_bytes(tail));
        assert forall|i: int| 0 <= i < tail.len() implies (#[trigger] tail[i]).line.len()
            <= usize::MAX as nat by {
            assert(tail[i] == ds[i + 1]);
        }
        lemma_dirty_lines_round_trip(tail);
        assert(seq![d] + tail =~= ds);
    }
}

proof fn lemma_zigzag_round_trip(y: i64)
    ensures
        zigzag64(y) <= u64::MAX as nat,
        unzigzag64(zigzag64(y) as u64) == y as int,
{
    if y < 0 {
        let m = -2 * (y as int) - 1;
        assert(m == 2 * (-(y as int) - 1) + 1);
        assert(m % 2 == 1) by (nonlinear_arith)
            requires
                m == 2 * (-(y as int) - 1) + 1,
                -(y as int) - 1 >= 0,
        ;
        assert((m + 1) / 2 == -(y as int)) by (nonlinear_arith)
            requires
                m + 1 == 2 * (-(y as int)),
                -(y as int) >= 0,
        ;
    }
}

#[verifier::rlimit(100)]
proof fn lemma_coarse_round_trip(m: CoarseResponseModel)
    requires
        m.dirty_lines.len() <= usize::MAX as nat,
        forall|i: int|
            0 <= i < m.dirty_lines.len() ==> (#[trigger] m.dirty_lines[i]).line.len()
                <= usize::MAX as nat,
        match m.current_highlight {
            None => true,
            Some(u) => u.len() <= usize::MAX as nat,
        },
    ensures
        coarse_response_parse(coarse_response_bytes(m)) == Some(m),
{
    let s = coarse_response_bytes(m);
    let y = m.cursor_position.y;
    lemma_zigzag_round_trip(y);
    let zz: u64 = zigzag64(y) as u64;
    let cnt: u64 = m.dirty_lines.len() as u64;
    let a1 = varint_bytes(m.cursor_position.x as nat);
    let a2 = varint_bytes(zigzag64(y));
    let a3 = varint_bytes(m.physical_rows as nat);
    let a4 = varint_bytes(m.physical_cols as nat);
    let a5 = highlight_bytes(m.current_highlight);
    let a6 = varint_bytes(m.dirty_lines.len());
    let a7 = dirty_lines_bytes(m.dirty_lines);
    let r5 = a6 + a7;
    let r4 = a5 + r5;
    let r3 = a4 + r4;
    let r2 = a3 + r3;
    let r1 = a2 + r2;
    assert(s == a1 + r1);
    crate::varint::lemma_varint_bytes_len(m.cursor_position.x as nat);
    crate::varint::lemma_varint_bytes_len(zigzag64(y));
    crate::varint::lemma_varint_bytes_len(m.physical_rows as nat);
    crate::varint::lemma_varint_bytes_len(m.physical_cols as nat);
    crate::varint::lemma_varint_bytes_len(m.dirty_lines.len());
    let k0 = varint_len(m.cursor_position.x as nat);
    let k1 = varint_len(zigzag64(y));
    let k2 = varint_len(m.physical_rows as nat);
    let k3 = varint_len(m.physical_cols as nat);
    let k4 = a5.len();
    let k5 = varint_len(m.dirty_lines.len());
    crate::varint::lemma_varint_parse_encoded(m.cursor_position.x as u64, r1);
    lemma_seq_append_take_skip(a1, r1, k0 as int);
    assert(s.skip(k0 as int) == r1);
    crate::varint::lemma_varint_parse_encoded(zz, r2);
    lemma_seq_append_take_skip(a2, r2, k1 as int);
    lemma_seq_skip_of_skip(s, k0 as int, k1 as int);
    assert(s.skip(k0 + k1 as int) == r2);
    crate::varint::lemma_varint_parse_encoded(m.physical_rows as u64, r3);
    lemma_seq_append_take_skip(a3, r3, k2 as int);
    lemma_seq_skip_of_skip(s, (k0 + k1) as int, k2 as int);
    assert(s.skip(k0 + k1 + k2 as int) == r3);
    crate::varint::lemma_varint_parse_encoded(m.physical_cols as u64, r4);
    lemma_seq_append_take_skip(a4, r4, k3 as int);
    lemma_seq_skip_of_skip(s, (k0 + k1 + k2) as int, k3 as int);
    assert(s.skip(k0 + k1 + k2 + k3 as int) == r4);
    lemma_highlight_round_trip(m.current_highlight, r5);
    lemma_seq_append_take_skip(a5, r5, k4 as int);
    lemma_seq_skip_of_skip(s, (k0 + k1 + k2 + k3) as int, k4 as int);
    assert(s.skip(k0 + k1 + k2 + k3 + k4 as int) == r5);
    crate::varint::lemma_varint_parse_encoded(cnt, a7);
    lemma_seq_append_take_skip(a6, a7, k5 as int);
    lemma_seq_skip_of_skip(s, (k0 + k1 + k2 + k3 + k4) as int, k5 as int);
    assert(s.skip(k0 + k1 + k2 + k3 + k4 + k5 as int) == a7);
    lemma_dirty_lines_round_trip(m.dirty_lines);
}

/// The payload schema of every registered message type reads back to the
/// message it was written from, consumed exactly.
proof fn lemma_payload_round_trip(p: PduModel)
    requires
        !(p is Invalid),
        pdu_wf(p),
    ensures
        payload_parse(pdu_ident(p), pdu_payload(p)) == Some(p),
{
    match p {
        PduModel::ListTabsResponse(m) => {
            let s = pdu_payload(p);
            let cnt: u64 = m.tabs.len() as u64;
            assert(s =~= varint_bytes(m.tabs.len()) + tab_entries_bytes(m.tabs));
            crate::varint::lemma_varint_parse_encoded(cnt, tab_entries_bytes(m.tabs));
            crate::varint::lemma_varint_bytes_len(m.tabs.len());
            let k = varint_len(m.tabs.len());
            assert(s.skip(k as int) =~= tab_entries_bytes(m.tabs));
            lemma_tab_entries_round_trip(m.tabs);
        },
        PduModel::GetCoarseTabRenderableData(m) => {
            crate::varint::lemma_varint_round_trip(m.tab_id as u64);
            crate::varint::lemma_varint_bytes_len(m.tab_id as nat);
        },
        PduModel::GetCoarseTabRenderableDataResponse(m) => {
            lemma_coarse_round_trip(m);
        },
        _ => {},
    }
}

/// Law: message round trip. For every registered message type, every valid
/// instance `p` and every serial, decoding the encoding of `p` under that
/// serial yields exactly `p` with the serial preserved.
pub proof fn lemma_pdu_round_trip(p: PduModel, serial: u64)
    requires
        !(p is Invalid),
        pdu_wf(p),
        pdu_payload(p).len() + 20 <= usize::MAX,
    ensures
        pdu_parse(pdu_wire(p, serial)) == Ok::<DecodedPduModel, CodecError>(
            (DecodedPduModel { serial, pdu: p }),
        ),
{
    let wire = pdu_wire(p, serial);
    assert(wire + Seq::<u8>::empty() =~= wire);
    crate::frame::lemma_frame_round_trip(serial, pdu_ident(p), pdu_payload(p), Seq::empty());
    lemma_payload_round_trip(p);
}

/// Law: unknown-identifier tolerance. A well-formed frame whose identifier
/// is not registered decodes successfully to the `Invalid` sentinel carrying
/// that identifier, with the serial preserved; it raises no error, whatever
/// its payload holds.
pub proof fn lemma_unknown_ident_tolerated(serial: u64, ident: u64, payload: Seq<u8>)
    requires
        !registered_ident(ident),
        payload.len() + 20 <= usize::MAX,
    ensures
        pdu_parse(frame_bytes(serial, ident, payload)) == Ok::<DecodedPduModel, CodecError>(
            (DecodedPduModel { serial, pdu: PduModel::Invalid { ident } }),
        ),
{
    let wire = frame_bytes(serial, ident, payload);
    assert(wire + Seq::<u8>::empty() =~= wire);
    crate::frame::lemma_frame_round_trip(serial, ident, payload, Seq::empty());
}

} // verus!
