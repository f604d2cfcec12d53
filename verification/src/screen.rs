//! The virtual-terminal screen model: a vt100 parser together with the
//! cumulative raw-output buffer that replays it at a new size, and the
//! scroll, resize and snapshot operations of a terminal session.
use vstd::prelude::*;

verus! {

/// The vt100 parser held opaquely: Verus sees this struct's value only
/// through the names below.
#[verifier::external_body]
pub struct VtParser {
    inner: vt100_ctt::Parser,
}

#[verifier::external_type_specification]
#[verifier::external_body]
pub struct ExScreen(vt100_ctt::Screen);

/// The screen rows the parser was built with.
pub uninterp spec fn parser_rows(p: VtParser) -> u16;

/// The screen columns the parser was built with.
pub uninterp spec fn parser_cols(p: VtParser) -> u16;

/// The scrollback capacity the parser was built with.
pub uninterp spec fn parser_cap(p: VtParser) -> nat;

/// Every byte the parser has processed since construction.
pub uninterp spec fn parser_fed(p: VtParser) -> Seq<u8>;

/// The current scrollback offset of the parser's screen.
pub uninterp spec fn parser_offset(p: VtParser) -> nat;

/// How many rows the scrollback holds after the given bytes ran through
/// a parser of the given dimensions and capacity.
pub uninterp spec fn vt_avail(rows: u16, cols: u16, cap: nat, fed: Seq<u8>) -> nat;

/// The plain-text contents that such a screen shows at the given
/// scrollback offset.
pub uninterp spec fn vt_contents(rows: u16, cols: u16, cap: nat, fed: Seq<u8>, offset: nat) -> Seq<
    char,
>;

/// The cursor position of such a screen, rows before columns.
pub uninterp spec fn vt_cursor(rows: u16, cols: u16, cap: nat, fed: Seq<u8>) -> (u16, u16);

/// The smaller of two naturals.
pub open spec fn min_nat(a: nat, b: nat) -> nat {
    if a <= b {
        a
    } else {
        b
    }
}

/// Relies on vt100's `Parser::new`: a parser of the given size and
/// scrollback capacity that has processed nothing. The grid subtracts one
/// from the row count, so a row is required.
#[verifier::external_body]
fn parser_new(rows: u16, cols: u16, scrollback_len: usize) -> (p: VtParser)
    requires
        rows >= 1,
        cols >= 1,
    ensures
        parser_rows(p) == rows,
        parser_cols(p) == cols,
        parser_cap(p) == scrollback_len,
        parser_fed(p) == Seq::<u8>::empty(),
        parser_offset(p) == 0,
        vt_avail(parser_rows(p), parser_cols(p), parser_cap(p), parser_fed(p)) == 0,
{
    VtParser { inner: vt100_ctt::Parser::new(rows, cols, scrollback_len) }
}

/// Relies on vt100's `Parser::process`: feeds the bytes into the screen
/// state. The grid only moves a non-zero scrollback offset, keeps it at
/// most the scrollback length, and caps the scrollback at its capacity.
#[verifier::external_body]
fn parser_process(p: &mut VtParser, bytes: &[u8])
    ensures
        parser_rows(*final(p)) == parser_rows(*old(p)),
        parser_cols(*final(p)) == parser_cols(*old(p)),
        parser_cap(*final(p)) == parser_cap(*old(p)),
        parser_fed(*final(p)) == parser_fed(*old(p)) + bytes@,
        parser_offset(*old(p)) == 0 ==> parser_offset(*final(p)) == 0,
        parser_offset(*final(p)) <= vt_avail(
            parser_rows(*final(p)),
            parser_cols(*final(p)),
            parser_cap(*final(p)),
            parser_fed(*final(p)),
        ),
        vt_avail(
            parser_rows(*final(p)),
            parser_cols(*final(p)),
            parser_cap(*final(p)),
            parser_fed(*final(p)),
        ) <= parser_cap(*final(p)),
{
    p.inner.process(bytes);
}

/// Relies on vt100's `Screen::scrollback`: the current offset.
#[verifier::external_body]
fn parser_scrollback(p: &VtParser) -> (r: usize)
    ensures
        r == parser_offset(*p),
{
    p.inner.screen().scrollback()
}

/// Relies on vt100's `Screen::set_scrollback`: the offset becomes the
/// requested value clamped to the scrollback length.
#[verifier::external_body]
fn parser_set_scrollback(p: &mut VtParser, rows: usize)
    ensures
        parser_rows(*final(p)) == parser_rows(*old(p)),
        parser_cols(*final(p)) == parser_cols(*old(p)),
        parser_cap(*final(p)) == parser_cap(*old(p)),
        parser_fed(*final(p)) == parser_fed(*old(p)),
        parser_offset(*final(p)) == min_nat(
            rows as nat,
            vt_avail(
                parser_rows(*old(p)),
                parser_cols(*old(p)),
                parser_cap(*old(p)),
                parser_fed(*old(p)),
            ),
        ),
{
    p.inner.screen_mut().set_scrollback(rows);
}

/// Relies on vt100's `Screen::set_scrollback` clamping to the scrollback
/// length: asking for the largest offset and reading it back measures the
/// length, and the old offset, never past the length, is then restored.
/// The scrollback never outgrows the capacity.
#[verifier::external_body]
fn parser_avail(p: &mut VtParser) -> (r: usize)
    requires
        parser_offset(*old(p)) <= vt_avail(
            parser_rows(*old(p)),
            parser_cols(*old(p)),
            parser_cap(*old(p)),
            parser_fed(*old(p)),
        ),
    ensures
        *final(p) == *old(p),
        r == vt_avail(
            parser_rows(*old(p)),
            parser_cols(*old(p)),
            parser_cap(*old(p)),
            parser_fed(*old(p)),
        ),
        r <= parser_cap(*old(p)),
{
    let current = p.inner.screen().scrollback();
    p.inner.screen_mut().set_scrollback(usize::MAX);
    let len = p.inner.screen().scrollback();
    p.inner.screen_mut().set_scrollback(current);
    len
}

/// Relies on vt100's `Screen::contents`: the plain text shown at the
/// current offset, a function of dimensions, capacity, fed bytes and
/// offset alone.
#[verifier::external_body]
fn parser_contents(p: &VtParser) -> (r: String)
    ensures
        r@ == vt_contents(
            parser_rows(*p),
            parser_cols(*p),
            parser_cap(*p),
            parser_fed(*p),
            parser_offset(*p),
        ),
{
    p.inner.screen().contents()
}

/// Relies on vt100's `Screen::cursor_position`: the cursor, a function
/// of dimensions, capacity and fed bytes; the offset does not move it.
#[verifier::external_body]
fn parser_cursor(p: &VtParser) -> (r: (u16, u16))
    ensures
        r == vt_cursor(parser_rows(*p), parser_cols(*p), parser_cap(*p), parser_fed(*p)),
{
    p.inner.screen().cursor_position()
}

/// Relies on `Screen: Clone`: a snapshot of the current screen state.
#[verifier::external_body]
fn screen_clone(p: &VtParser) -> (s: vt100_ctt::Screen) {
    p.inner.screen().clone()
}

/// Appends the bytes of a slice to a byte vector.
fn append_bytes(dst: &mut Vec<u8>, bytes: &[u8])
    ensures
        final(dst)@ == old(dst)@ + bytes@,
{
    let mut i: usize = 0;
    while i < bytes.len()
        invariant
            i <= bytes@.len(),
            dst@ == old(dst)@ + bytes@.take(i as int),
        decreases bytes@.len() - i,
    {
        dst.push(bytes[i]);
        proof {
            assert(old(dst)@ + bytes@.take(i as int) + seq![bytes@[i as int]] =~= old(dst)@
                + bytes@.take(i + 1));
        }
        i = i + 1;
    }
    proof {
        assert(bytes@.take(bytes@.len() as int) =~= bytes@);
        assert(dst@ =~= old(dst)@ + bytes@);
    }
}

/// The scrollback capacity every session's parser is built with.
pub const SCROLLBACK_LEN: usize = 10000;

/// The screen model of one session: the parser and the raw bytes that
/// rebuild it, with the dimensions it currently has.
pub struct ScreenModel {
    pub parser: VtParser,
    pub raw: Vec<u8>,
    pub rows: u16,
    pub cols: u16,
}

impl ScreenModel {
    /// The parser mirrors the recorded fields: same dimensions and
    /// capacity, fed exactly the recorded bytes, offset within the
    /// scrollback.
    pub open spec fn wf(&self) -> bool {
        &&& parser_rows(self.parser) == self.rows
        &&& parser_cols(self.parser) == self.cols
        &&& parser_cap(self.parser) == SCROLLBACK_LEN
        &&& parser_fed(self.parser) == self.raw@
        &&& parser_offset(self.parser) <= vt_avail(
            self.rows,
            self.cols,
            SCROLLBACK_LEN as nat,
            self.raw@,
        )
        &&& vt_avail(self.rows, self.cols, SCROLLBACK_LEN as nat, self.raw@) <= SCROLLBACK_LEN
        &&& self.rows >= 1
        &&& self.cols >= 1
    }

    /// The current scrollback offset.
    pub open spec fn offset(&self) -> nat {
        parser_offset(self.parser)
    }

    /// The contents the screen shows.
    pub open spec fn contents_view(&self) -> Seq<char> {
        vt_contents(self.rows, self.cols, SCROLLBACK_LEN as nat, self.raw@, self.offset())
    }

    /// A fresh screen of the given size, nothing processed yet.
    pub fn new(rows: u16, cols: u16) -> (r: ScreenModel)
        requires
            rows >= 1,
            cols >= 1,
        ensures
            r.wf(),
            r.rows == rows,
            r.cols == cols,
            r.raw@ == Seq::<u8>::empty(),
            r.offset() == 0,
    {
        let parser = parser_new(rows, cols, SCROLLBACK_LEN);
        ScreenModel { parser, raw: Vec::new(), rows, cols }
    }

    /// Feeds output bytes: they are appended to the raw buffer and run
    /// through the parser.
    pub fn process(&mut self, bytes: &[u8])
        requires
            old(self).wf(),
        ensures
            final(self).wf(),
            final(self).rows == old(self).rows,
            final(self).cols == old(self).cols,
            final(self).raw@ == old(self).raw@ + bytes@,
            old(self).offset() == 0 ==> final(self).offset() == 0,
    {
        append_bytes(&mut self.raw, bytes);
        parser_process(&mut self.parser, bytes);
    }

    /// Resizes the screen, clamped to at least 3 rows and 20 columns: a
    /// fresh parser at the new size replays the raw buffer, and when rows
    /// were lost the view scrolls so the cursor stays at the bottom. The
    /// raw buffer itself is unchanged.
    pub fn resize(&mut self, rows: u16, cols: u16)
        requires
            old(self).wf(),
        ensures
            final(self).wf(),
            final(self).rows == if rows >= 3 {
                rows
            } else {
                3u16
            },
            final(self).cols == if cols >= 20 {
                cols
            } else {
                20u16
            },
            final(self).raw@ == old(self).raw@,
            final(self).offset() == if final(self).rows < old(self).rows {
                min_nat(
                    (old(self).rows - final(self).rows - 1) as nat,
                    vt_avail(
                        final(self).rows,
                        final(self).cols,
                        SCROLLBACK_LEN as nat,
                        old(self).raw@,
                    ),
                )
            } else {
                0
            },
    {
        let rows = if rows >= 3 {
            rows
        } else {
            3
        };
        let cols = if cols >= 20 {
            cols
        } else {
            20
        };
        let old_rows = self.rows;
        let mut new_parser = parser_new(rows, cols, SCROLLBACK_LEN);
        parser_process(&mut new_parser, self.raw.as_slice());
        if rows < old_rows {
            let lines_lost = (old_rows - rows) as usize;
            let current = parser_scrollback(&new_parser);
            parser_set_scrollback(&mut new_parser, current + lines_lost - 1);
        }
        self.parser = new_parser;
        self.rows = rows;
        self.cols = cols;
    }

    /// Scrolls one row further into the scrollback, as far as it holds
    /// rows.
    pub fn scroll_up(&mut self)
        requires
            old(self).wf(),
        ensures
            final(self).wf(),
            final(self).rows == old(self).rows,
            final(self).cols == old(self).cols,
            final(self).raw@ == old(self).raw@,
            final(self).offset() == min_nat(
                old(self).offset() + 1,
                vt_avail(old(self).rows, old(self).cols, SCROLLBACK_LEN as nat, old(self).raw@),
            ),
    {
        let current = parser_scrollback(&self.parser);
        parser_set_scrollback(&mut self.parser, current + 1);
    }

    /// Scrolls one row back toward the live screen, stopping at it.
    pub fn scroll_down(&mut self)
        requires
            old(self).wf(),
        ensures
            final(self).wf(),
            final(self).rows == old(self).rows,
            final(self).cols == old(self).cols,
            final(self).raw@ == old(self).raw@,
            final(self).offset() == if old(self).offset() > 0 {
                (old(self).offset() - 1) as nat
            } else {
                0
            },
    {
        let current = parser_scrollback(&self.parser);
        if current > 0 {
            parser_set_scrollback(&mut self.parser, current - 1);
        }
    }

    /// The current scrollback offset.
    pub fn get_scroll_offset(&self) -> (r: usize)
        ensures
            r == self.offset(),
    {
        parser_scrollback(&self.parser)
    }

    /// The total rows of content: the rows held in the scrollback plus
    /// the visible rows.
    pub fn get_total_content_rows(&mut self) -> (r: usize)
        requires
            old(self).wf(),
        ensures
            *final(self) == *old(self),
            r == vt_avail(
                old(self).rows,
                old(self).cols,
                SCROLLBACK_LEN as nat,
                old(self).raw@,
            ) + old(self).rows,
    {
        let avail = parser_avail(&mut self.parser);
        avail + self.rows as usize
    }

    /// A snapshot of the screen for the host to inspect.
    pub fn get_screen(&self) -> (r: Option<vt100_ctt::Screen>)
        ensures
            r is Some,
    {
        Some(screen_clone(&self.parser))
    }

    /// The plain-text contents currently shown.
    pub fn contents(&self) -> (r: String)
        requires
            self.wf(),
        ensures
            r@ == self.contents_view(),
    {
        parser_contents(&self.parser)
    }

    /// The cursor position, rows before columns.
    pub fn cursor_position(&self) -> (r: (u16, u16))
        requires
            self.wf(),
        ensures
            r == vt_cursor(self.rows, self.cols, SCROLLBACK_LEN as nat, self.raw@),
    {
        parser_cursor(&self.parser)
    }

    /// A copy of the raw output that rebuilds the screen at any size.
    pub fn get_raw_output(&self) -> (r: Vec<u8>)
        ensures
            r@ == self.raw@,
    {
        let mut out: Vec<u8> = Vec::new();
        append_bytes(&mut out, self.raw.as_slice());
        proof {
            assert(out@ =~= self.raw@);
        }
        out
    }
}

/// Two screens over the same dimensions that were fed the same bytes and
/// sit at the same offset show the same contents: feeding output in any
/// chunking, or replaying the concatenated raw buffer into a fresh
/// screen, ends in the same picture.
pub proof fn lemma_replay_contents(a: ScreenModel, b: ScreenModel)
    requires
        a.wf(),
        b.wf(),
        a.rows == b.rows,
        a.cols == b.cols,
        a.raw@ == b.raw@,
        a.offset() == b.offset(),
    ensures
        a.contents_view() == b.contents_view(),
{
}

/// How a session is opened: the initial size, and whether the host may
/// write to the child's input.
pub struct PseudoTerminalOptions {
    pub rows: u16,
    pub cols: u16,
    pub writable: bool,
}

impl PseudoTerminalOptions {
    /// Options for a host terminal of the given size, writable; the size
    /// query belongs to the embedding program.
    pub fn from_size(cols: u16, rows: u16) -> (r: PseudoTerminalOptions)
        ensures
            r.rows == rows,
            r.cols == cols,
            r.writable == true,
    {
        PseudoTerminalOptions { rows, cols, writable: true }
    }

    /// The default options: the host terminal's size when the query
    /// answered, else eighty columns by twenty-four rows, writable.
    pub fn default_from(size: Option<(u16, u16)>) -> (r: PseudoTerminalOptions)
        ensures
            r.writable == true,
            match size {
                Some(wh) => r.cols == wh.0 && r.rows == wh.1,
                None => r.cols == 80 && r.rows == 24,
            },
    {
        match size {
            Some(wh) => PseudoTerminalOptions::from_size(wh.0, wh.1),
            None => PseudoTerminalOptions::from_size(80, 24),
        }
    }
}

} // verus!
