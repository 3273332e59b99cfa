use vstd::prelude::*;

use crate::emulator::decode_byte;
use crate::inky::{
    color_code, color_of_code, lemma_code_color_roundtrip, lemma_color_code_roundtrip, on_screen,
    Button, Color, Panel, Picture, RESOLUTION_X, RESOLUTION_Y,
};

verus! {

/// The 4-bit code stored for pixel number `index` (row-major): two pixels share a byte, the
/// even-numbered one in the high half.
pub open spec fn packed_nibble(buffer: Seq<u8>, index: int) -> u8 {
    if index % 2 == 0 {
        buffer[index / 2] >> 4u8
    } else {
        buffer[index / 2] & 0x0fu8
    }
}

/// Writing a 4-bit value into one half of a byte sets that half and keeps the other.
proof fn lemma_set_nibble(b: u8, c: u8, offset: usize)
    requires
        c < 16,
        offset == 0 || offset == 4,
    ensures
        offset == 4 ==> ((b & !(0x0fu8 << offset)) | (c << offset)) >> 4u8 == c,
        offset == 4 ==> ((b & !(0x0fu8 << offset)) | (c << offset)) & 0x0fu8 == b & 0x0fu8,
        offset == 0 ==> ((b & !(0x0fu8 << offset)) | (c << offset)) & 0x0fu8 == c,
        offset == 0 ==> ((b & !(0x0fu8 << offset)) | (c << offset)) >> 4u8 == b >> 4u8,
{
    if offset == 4 {
        assert(((b & !(0x0fu8 << 4u8)) | (c << 4u8)) >> 4u8 == c) by (bit_vector)
            requires
                c < 16,
        ;
        assert(((b & !(0x0fu8 << 4u8)) | (c << 4u8)) & 0x0fu8 == b & 0x0fu8) by (bit_vector)
            requires
                c < 16,
        ;
    } else {
        assert(((b & !(0x0fu8 << 0u8)) | (c << 0u8)) & 0x0fu8 == c) by (bit_vector)
            requires
                c < 16,
        ;
        assert(((b & !(0x0fu8 << 0u8)) | (c << 0u8)) >> 4u8 == b >> 4u8) by (bit_vector)
            requires
                c < 16,
        ;
    }
}

/// The frame buffer sent to the panel's controller: two pixels per byte, row after row, each
/// half byte the controller code of the pixel's color.
pub struct Inky {
    buffer: Vec<u8>,
}

impl Inky {
    /// The bytes sent to the controller.
    pub closed spec fn bytes(&self) -> Seq<u8> {
        self.buffer@
    }

    /// A frame of all-zero bytes, which shows black everywhere.
    pub fn new() -> (r: Self)
        ensures
            r.wf(),
            forall|x: int, y: int| on_screen(x, y) ==> #[trigger] (r.pixels())(x, y) == Color::Black,
            r.bytes() == Seq::new((RESOLUTION_X * RESOLUTION_Y / 2) as nat, |i: int| 0u8),
    {
        let mut buffer: Vec<u8> = Vec::new();
        let n = RESOLUTION_X * RESOLUTION_Y / 2;
        while buffer.len() < n
            invariant
                n == RESOLUTION_X * RESOLUTION_Y / 2,
                buffer.len() <= n,
                forall|i: int| 0 <= i < buffer.len() ==> buffer@[i] == 0u8,
            decreases n - buffer.len(),
        {
            buffer.push(0);
        }
        let r = Inky { buffer };
        assert(r.bytes() =~= Seq::new((RESOLUTION_X * RESOLUTION_Y / 2) as nat, |i: int| 0u8));
        assert forall|i: int| 0 <= i < RESOLUTION_X * RESOLUTION_Y implies (#[trigger] color_of_code(
            packed_nibble(r.buffer@, i),
        )) is Some by {
            assert(r.buffer@[i / 2] == 0u8);
            assert(0u8 >> 4u8 == 0u8) by (bit_vector);
            assert(0u8 & 0x0fu8 == 0u8) by (bit_vector);
        }
        assert forall|x: int, y: int| on_screen(x, y) implies #[trigger] (r.pixels())(x, y)
            == Color::Black by {
            let i = x + y * RESOLUTION_X;
            assert(0 <= i < RESOLUTION_X * RESOLUTION_Y) by (nonlinear_arith)
                requires
                    0 <= x < 800,
                    0 <= y < 480,
                    i == x + y * 800,
            ;
            assert(0u8 >> 4u8 == 0u8) by (bit_vector);
            assert(0u8 & 0x0fu8 == 0u8) by (bit_vector);
        }
        r
    }

    /// The bytes of the frame as the controller takes them: two pixels per byte, each half the
    /// code of its pixel's color.
    pub fn as_bytes(&self) -> (b: &[u8])
        ensures
            b@ == self.bytes(),
            self.wf() ==> b@.len() == RESOLUTION_X * RESOLUTION_Y / 2,
            self.wf() ==> forall|x: int, y: int|
                on_screen(x, y) ==> #[trigger] packed_nibble(b@, x + y * RESOLUTION_X) == color_code((self.pixels())(x, y)),
    {
        proof {
            if self.wf() {
                assert forall|x: int, y: int| on_screen(x, y) implies #[trigger] packed_nibble(self.buffer@, x + y * RESOLUTION_X)
                    == color_code((self.pixels())(x, y)) by {
                    let i = x + y * RESOLUTION_X;
                    assert(0 <= i < RESOLUTION_X * RESOLUTION_Y) by (nonlinear_arith)
                        requires
                            0 <= x < 800,
                            0 <= y < 480,
                            i == x + y * 800,
                    ;
                    lemma_code_color_roundtrip(packed_nibble(self.buffer@, i));
                }
            }
        }
        self.buffer.as_slice()
    }
}

impl Panel for Inky {
    closed spec fn wf(&self) -> bool {
        &&& self.buffer.len() == RESOLUTION_X * RESOLUTION_Y / 2
        &&& forall|i: int|
            0 <= i < RESOLUTION_X * RESOLUTION_Y ==> (#[trigger] color_of_code(packed_nibble(self.buffer@, i))) is Some
    }

    closed spec fn pixels(&self) -> Picture {
        |x: int, y: int| decode_byte(packed_nibble(self.buffer@, x + y * RESOLUTION_X))
    }

    fn resolution_x(&self) -> (r: usize) {
        RESOLUTION_X
    }

    fn resolution_y(&self) -> (r: usize) {
        RESOLUTION_Y
    }

    fn set_pixel(&mut self, x: usize, y: usize, color: Color) {
        let ghost before = self.pixels();
        let ghost old_buffer = self.buffer@;
        let index = x + y * RESOLUTION_X;
        let byte = index / 2;
        let offset = (1 - index % 2) * 4;
        let code = color.code();
        let old_byte = self.buffer[byte];
        proof {
            lemma_set_nibble(old_byte, code, offset);
        }
        self.buffer.set(byte, old_byte & !(0x0f << offset) | (code << offset));
        proof {
            let after = self.pixels();
            assert forall|px: int, py: int| on_screen(px, py) implies #[trigger] after(px, py) == (
            if px == x && py == y {
                color
            } else {
                before(px, py)
            }) by {
                let i = px + py * RESOLUTION_X;
                assert(0 <= i < RESOLUTION_X * RESOLUTION_Y) by (nonlinear_arith)
                    requires
                        0 <= px < 800,
                        0 <= py < 480,
                        i == px + py * 800,
                ;
                if !(px == x && py == y) {
                    assert(i != index) by (nonlinear_arith)
                        requires
                            0 <= px < 800,
                            0 <= x < 800,
                            0 <= py,
                            0 <= y,
                            i == px + py * 800,
                            index == x + y * 800,
                            !(px == x && py == y),
                    ;
                    if i / 2 == byte as int {
                        assert(packed_nibble(self.buffer@, i) == packed_nibble(old_buffer, i));
                    } else {
                        assert(self.buffer@[i / 2] == old_buffer[i / 2]);
                    }
                }
            }
            lemma_color_code_roundtrip(color);
            assert forall|i: int| 0 <= i < RESOLUTION_X * RESOLUTION_Y implies (#[trigger] color_of_code(
                packed_nibble(self.buffer@, i),
            )) is Some by {
                if i == index as int {
                    assert(packed_nibble(self.buffer@, i) == code);
                } else if i / 2 == byte as int {
                    assert(packed_nibble(self.buffer@, i) == packed_nibble(old_buffer, i));
                } else {
                    assert(self.buffer@[i / 2] == old_buffer[i / 2]);
                }
            }
        }
    }
}

/// Command header.
pub const CMD_CMDH: u8 = 0xaa;
/// Panel settings.
pub const CMD_PSR: u8 = 0x00;
/// Power settings.
pub const CMD_PWR: u8 = 0x01;
/// Power off.
pub const CMD_POF: u8 = 0x02;
/// Power off sequence.
pub const CMD_POFS: u8 = 0x03;
/// Power on.
pub const CMD_PON: u8 = 0x04;
/// Booster soft start 1.
pub const CMD_BTST1: u8 = 0x05;
/// Booster soft start 2.
pub const CMD_BTST2: u8 = 0x06;
/// Booster soft start 3.
pub const CMD_BTST3: u8 = 0x08;
/// Data start transmission.
pub const CMD_DTM1: u8 = 0x10;
/// Display refresh.
pub const CMD_DRF: u8 = 0x12;
/// Oscillator clock control.
pub const CMD_PLL: u8 = 0x30;
/// VCOM and data interval.
pub const CMD_CDI: u8 = 0x50;
/// TCON setting.
pub const CMD_TCON: u8 = 0x60;
/// Resolution setting.
pub const CMD_TRES: u8 = 0x61;
/// VCOM DC setting.
pub const CMD_VDCS: u8 = 0x82;
/// Power saving.
pub const CMD_PWS: u8 = 0xe3;

/// How long to wait for the controller by default, in milliseconds.
pub const DEFAULT_WAIT_MS: u64 = 300;

/// How long a display refresh may take, in milliseconds.
pub const REFRESH_WAIT_MS: u64 = 32000;

/// One thing to do on the controller's lines.
pub enum PanelStep {
    /// Drive the reset line.
    Reset(bool),
    /// Drive the chip select line.
    ChipSelect(bool),
    /// Drive the data/command line (`true` for data).
    DataMode(bool),
    /// Wait this many milliseconds.
    Sleep(u64),
    /// Wait, at most this many milliseconds, for the busy line to go high.
    WaitBusy(u64),
    /// Send these bytes over SPI.
    Transfer(Vec<u8>),
}

/// What a step does, with its bytes as a sequence.
pub enum StepView {
    Reset(bool),
    ChipSelect(bool),
    DataMode(bool),
    Sleep(u64),
    WaitBusy(u64),
    Transfer(Seq<u8>),
}

impl View for PanelStep {
    type V = StepView;

    open spec fn view(&self) -> StepView {
        match self {
            PanelStep::Reset(v) => StepView::Reset(*v),
            PanelStep::ChipSelect(v) => StepView::ChipSelect(*v),
            PanelStep::DataMode(v) => StepView::DataMode(*v),
            PanelStep::Sleep(ms) => StepView::Sleep(*ms),
            PanelStep::WaitBusy(ms) => StepView::WaitBusy(*ms),
            PanelStep::Transfer(bytes) => StepView::Transfer(bytes@),
        }
    }
}

/// The views of a list of steps.
pub open spec fn steps_view(steps: Seq<PanelStep>) -> Seq<StepView> {
    steps.map_values(|s: PanelStep| s@)
}

/// `data` cut into consecutive pieces of `size` bytes, the last one possibly shorter.
pub open spec fn chunks(data: Seq<u8>, size: nat) -> Seq<Seq<u8>>
    decreases data.len(),
{
    if data.len() == 0 || size == 0 {
        seq![]
    } else if data.len() <= size {
        seq![data]
    } else {
        seq![data.take(size as int)] + chunks(data.skip(size as int), size)
    }
}

/// Sending `command` and then, when there is any, its `data` in transfers of at most `size`
/// bytes: chip select low, command mode, the command byte, then data mode and the data
/// pieces, and chip select high again.
pub open spec fn command_plan(command: u8, data: Option<Seq<u8>>, size: nat) -> Seq<StepView> {
    let head = seq![StepView::ChipSelect(false), StepView::DataMode(false), StepView::Transfer(seq![command])];
    let body = match data {
        Some(d) => seq![StepView::DataMode(true)] + chunk_transfers(d, size),
        None => seq![],
    };
    head + body + seq![StepView::ChipSelect(true)]
}

/// The pieces of a cut, put back together.
pub open spec fn joined(pieces: Seq<Seq<u8>>) -> Seq<u8>
    decreases pieces.len(),
{
    if pieces.len() == 0 {
        seq![]
    } else {
        pieces[0] + joined(pieces.drop_first())
    }
}

/// Sending data in pieces loses and adds nothing: the pieces put back together are the data,
/// and each piece holds at least one and at most `size` bytes.
pub proof fn lemma_chunks_cover(data: Seq<u8>, size: nat)
    requires
        size > 0,
    ensures
        joined(chunks(data, size)) == data,
        forall|i: int| 0 <= i < chunks(data, size).len() ==> 0 < #[trigger] chunks(data, size)[i].len() <= size,
    decreases data.len(),
{
    if data.len() == 0 {
        assert(joined(chunks(data, size)) =~= data);
    } else if data.len() <= size {
        let c = chunks(data, size);
        assert(c =~= seq![data]);
        assert(c.drop_first() =~= Seq::<Seq<u8>>::empty());
        assert(joined(c.drop_first()) =~= Seq::<u8>::empty());
        assert(c[0] + joined(c.drop_first()) =~= data);
    } else {
        let rest = data.skip(size as int);
        lemma_chunks_cover(rest, size);
        let c = chunks(data, size);
        assert(c.drop_first() =~= chunks(rest, size));
        assert(data.take(size as int) + rest =~= data);
        assert forall|i: int| 0 <= i < c.len() implies 0 < #[trigger] c[i].len() <= size by {
            if i > 0 {
                assert(c[i] == chunks(rest, size)[i - 1]);
            }
        }
    }
}

/// The transfer steps that send `data` in pieces of at most `size` bytes.
pub open spec fn chunk_transfers(data: Seq<u8>, size: nat) -> Seq<StepView> {
    chunks(data, size).map_values(|c: Seq<u8>| StepView::Transfer(c))
}

/// Taking the piece `data[offset..end]` off the front of what is left to send leaves what
/// starts at `end`.
proof fn lemma_chunks_step(data: Seq<u8>, offset: int, end: int, size: nat)
    requires
        size > 0,
        0 <= offset < end <= data.len(),
        end == if data.len() - offset <= size { data.len() as int } else { offset + size },
    ensures
        chunk_transfers(data.skip(offset), size) == seq![StepView::Transfer(data.subrange(offset, end))]
            + chunk_transfers(data.skip(end), size),
{
    let rest = data.skip(offset);
    if data.len() - offset <= size {
        assert(rest =~= data.subrange(offset, end));
        assert(data.skip(end) =~= Seq::<u8>::empty());
        assert(chunks(data.skip(end), size) =~= Seq::<Seq<u8>>::empty());
    } else {
        assert(rest.take(size as int) =~= data.subrange(offset, end));
        assert(rest.skip(size as int) =~= data.skip(end));
    }
    assert(chunk_transfers(rest, size) =~= seq![StepView::Transfer(data.subrange(offset, end))]
        + chunk_transfers(data.skip(end), size));
}

/// Appends to `steps` the steps that send `command` with its optional `data` in transfers of at
/// most `max_chunk` bytes.
pub fn push_command(steps: &mut Vec<PanelStep>, command: u8, data: Option<&[u8]>, max_chunk: usize)
    requires
        max_chunk > 0,
    ensures
        steps_view(final(steps)@) == steps_view(old(steps)@) + command_plan(
            command,
            match data {
                Some(d) => Some(d@),
                None => None,
            },
            max_chunk as nat,
        ),
{
    let ghost start = steps_view(steps@);
    steps.push(PanelStep::ChipSelect(false));
    steps.push(PanelStep::DataMode(false));
    let mut command_byte: Vec<u8> = Vec::new();
    command_byte.push(command);
    steps.push(PanelStep::Transfer(command_byte));
    let ghost head = seq![
        StepView::ChipSelect(false),
        StepView::DataMode(false),
        StepView::Transfer(seq![command]),
    ];
    assert(steps_view(steps@) =~= start + head);
    match data {
        Some(data) => {
            steps.push(PanelStep::DataMode(true));
            let ghost body = seq![StepView::DataMode(true)];
            let ghost all = chunk_transfers(data@, max_chunk as nat);
            assert(steps_view(steps@) =~= start + head + body);
            assert(data@.skip(0) =~= data@);
            let mut offset: usize = 0;
            while offset < data.len()
                invariant
                    max_chunk > 0,
                    offset <= data.len(),
                    all == chunk_transfers(data@, max_chunk as nat),
                    steps_view(steps@) + chunk_transfers(data@.skip(offset as int), max_chunk as nat)
                        == start + head + body + all,
                decreases data.len() - offset,
            {
                let end = if data.len() - offset <= max_chunk {
                    data.len()
                } else {
                    offset + max_chunk
                };
                let mut piece: Vec<u8> = Vec::new();
                let mut j = offset;
                while j < end
                    invariant
                        offset <= j <= end <= data.len(),
                        piece@ == data@.subrange(offset as int, j as int),
                    decreases end - j,
                {
                    piece.push(data[j]);
                    j += 1;
                }
                let ghost before = steps_view(steps@);
                proof {
                    lemma_chunks_step(data@, offset as int, end as int, max_chunk as nat);
                }
                steps.push(PanelStep::Transfer(piece));
                assert(steps_view(steps@) =~= before + seq![StepView::Transfer(data@.subrange(offset as int, end as int))]);
                assert(steps_view(steps@) + chunk_transfers(data@.skip(end as int), max_chunk as nat)
                    =~= before + chunk_transfers(data@.skip(offset as int), max_chunk as nat));
                offset = end;
            }
            assert(data@.skip(offset as int) =~= Seq::<u8>::empty());
            assert(chunks(data@.skip(offset as int), max_chunk as nat) =~= Seq::<Seq<u8>>::empty());
            assert(steps_view(steps@) =~= start + head + body + all);
            let ghost mid = steps_view(steps@);
            steps.push(PanelStep::ChipSelect(true));
            assert(steps_view(steps@) =~= mid + seq![StepView::ChipSelect(true)]);
        },
        None => {
            let ghost mid = steps_view(steps@);
            steps.push(PanelStep::ChipSelect(true));
            assert(steps_view(steps@) =~= mid + seq![StepView::ChipSelect(true)]);
        },
    }
}

/// Reset pulse, then a wait for the controller, then the configuration commands, each sent in
/// transfers of at most `size` bytes.
pub open spec fn setup_plan(size: nat) -> Seq<StepView> {
    seq![
        StepView::Reset(false),
        StepView::Sleep(30),
        StepView::Reset(true),
        StepView::Sleep(30),
        StepView::WaitBusy(DEFAULT_WAIT_MS),
    ]
        + command_plan(CMD_CMDH, Some(seq![0x49u8, 0x55, 0x20, 0x08, 0x09, 0x18]), size)
        + command_plan(CMD_PWR, Some(seq![0x3fu8]), size)
        + command_plan(CMD_PSR, Some(seq![0x5fu8, 0x69]), size)
        + command_plan(CMD_POFS, Some(seq![0x00u8, 0x54, 0x00, 0x44]), size)
        + command_plan(CMD_BTST1, Some(seq![0x40u8, 0x1f, 0x1f, 0x2c]), size)
        + command_plan(CMD_BTST2, Some(seq![0x6fu8, 0x1f, 0x17, 0x49]), size)
        + command_plan(CMD_BTST3, Some(seq![0x6fu8, 0x1f, 0x1f, 0x22]), size)
        + command_plan(CMD_PLL, Some(seq![0x03u8]), size)
        + command_plan(CMD_CDI, Some(seq![0x3fu8]), size)
        + command_plan(CMD_TCON, Some(seq![0x02u8, 0x00]), size)
        + command_plan(CMD_TRES, Some(seq![0x03u8, 0x20, 0x01, 0xe0]), size)
        + command_plan(CMD_VDCS, Some(seq![0x01u8]), size)
        + command_plan(CMD_PWS, Some(seq![0x2fu8]), size)
}

/// Sending the frame `frame`, powering on, refreshing the display and powering off again,
/// with a wait for the controller after each of the last three.
pub open spec fn show_plan(frame: Seq<u8>, size: nat) -> Seq<StepView> {
    command_plan(CMD_DTM1, Some(frame), size)
        + command_plan(CMD_PON, None, size)
        + seq![StepView::WaitBusy(DEFAULT_WAIT_MS)]
        + command_plan(CMD_DRF, Some(seq![0x00u8]), size)
        + seq![StepView::WaitBusy(REFRESH_WAIT_MS)]
        + command_plan(CMD_POF, Some(seq![0x00u8]), size)
        + seq![StepView::WaitBusy(DEFAULT_WAIT_MS)]
}

/// The steps that reset and configure the controller, with SPI transfers of at most
/// `max_chunk` bytes.
pub fn setup_steps(max_chunk: usize) -> (steps: Vec<PanelStep>)
    requires
        max_chunk > 0,
    ensures
        steps_view(steps@) == setup_plan(max_chunk as nat),
{
    let mut steps: Vec<PanelStep> = Vec::new();
    steps.push(PanelStep::Reset(false));
    steps.push(PanelStep::Sleep(30));
    steps.push(PanelStep::Reset(true));
    steps.push(PanelStep::Sleep(30));
    steps.push(PanelStep::WaitBusy(DEFAULT_WAIT_MS));
    assert(steps_view(steps@) =~= seq![
        StepView::Reset(false),
        StepView::Sleep(30),
        StepView::Reset(true),
        StepView::Sleep(30),
        StepView::WaitBusy(DEFAULT_WAIT_MS),
    ]);
    let cmdh: [u8; 6] = [0x49, 0x55, 0x20, 0x08, 0x09, 0x18];
    push_command(&mut steps, CMD_CMDH, Some(cmdh.as_slice()), max_chunk);
    let pwr: [u8; 1] = [0x3f];
    push_command(&mut steps, CMD_PWR, Some(pwr.as_slice()), max_chunk);
    let psr: [u8; 2] = [0x5f, 0x69];
    push_command(&mut steps, CMD_PSR, Some(psr.as_slice()), max_chunk);
    let pofs: [u8; 4] = [0x00, 0x54, 0x00, 0x44];
    push_command(&mut steps, CMD_POFS, Some(pofs.as_slice()), max_chunk);
    let btst1: [u8; 4] = [0x40, 0x1f, 0x1f, 0x2c];
    push_command(&mut steps, CMD_BTST1, Some(btst1.as_slice()), max_chunk);
    let btst2: [u8; 4] = [0x6f, 0x1f, 0x17, 0x49];
    push_command(&mut steps, CMD_BTST2, Some(btst2.as_slice()), max_chunk);
    let btst3: [u8; 4] = [0x6f, 0x1f, 0x1f, 0x22];
    push_command(&mut steps, CMD_BTST3, Some(btst3.as_slice()), max_chunk);
    let pll: [u8; 1] = [0x03];
    push_command(&mut steps, CMD_PLL, Some(pll.as_slice()), max_chunk);
    let cdi: [u8; 1] = [0x3f];
    push_command(&mut steps, CMD_CDI, Some(cdi.as_slice()), max_chunk);
    let tcon: [u8; 2] = [0x02, 0x00];
    push_command(&mut steps, CMD_TCON, Some(tcon.as_slice()), max_chunk);
    let tres: [u8; 4] = [0x03, 0x20, 0x01, 0xe0];
    push_command(&mut steps, CMD_TRES, Some(tres.as_slice()), max_chunk);
    let vdcs: [u8; 1] = [0x01];
    push_command(&mut steps, CMD_VDCS, Some(vdcs.as_slice()), max_chunk);
    let pws: [u8; 1] = [0x2f];
    push_command(&mut steps, CMD_PWS, Some(pws.as_slice()), max_chunk);
    assert(cmdh@ =~= seq![0x49u8, 0x55, 0x20, 0x08, 0x09, 0x18]);
    assert(pwr@ =~= seq![0x3fu8]);
    assert(psr@ =~= seq![0x5fu8, 0x69]);
    assert(pofs@ =~= seq![0x00u8, 0x54, 0x00, 0x44]);
    assert(btst1@ =~= seq![0x40u8, 0x1f, 0x1f, 0x2c]);
    assert(btst2@ =~= seq![0x6fu8, 0x1f, 0x17, 0x49]);
    assert(btst3@ =~= seq![0x6fu8, 0x1f, 0x1f, 0x22]);
    assert(pll@ =~= seq![0x03u8]);
    assert(cdi@ =~= seq![0x3fu8]);
    assert(tcon@ =~= seq![0x02u8, 0x00]);
    assert(tres@ =~= seq![0x03u8, 0x20, 0x01, 0xe0]);
    assert(vdcs@ =~= seq![0x01u8]);
    assert(pws@ =~= seq![0x2fu8]);
    steps
}

impl Inky {
    /// The steps that send this frame to the controller and show it, with SPI transfers of at
    /// most `max_chunk` bytes.
    pub fn show_steps(&self, max_chunk: usize) -> (steps: Vec<PanelStep>)
        requires
            max_chunk > 0,
        ensures
            steps_view(steps@) == show_plan(self.bytes(), max_chunk as nat),
    {
        let mut steps: Vec<PanelStep> = Vec::new();
        assert(steps_view(steps@) =~= Seq::<StepView>::empty());
        push_command(&mut steps, CMD_DTM1, Some(self.buffer.as_slice()), max_chunk);
        assert(steps_view(steps@) =~= command_plan(CMD_DTM1, Some(self.bytes()), max_chunk as nat));
        push_command(&mut steps, CMD_PON, None, max_chunk);
        let ghost a = steps_view(steps@);
        steps.push(PanelStep::WaitBusy(DEFAULT_WAIT_MS));
        assert(steps_view(steps@) =~= a + seq![StepView::WaitBusy(DEFAULT_WAIT_MS)]);
        let zero: [u8; 1] = [0x00];
        assert(zero@ =~= seq![0x00u8]);
        push_command(&mut steps, CMD_DRF, Some(zero.as_slice()), max_chunk);
        let ghost b = steps_view(steps@);
        steps.push(PanelStep::WaitBusy(REFRESH_WAIT_MS));
        assert(steps_view(steps@) =~= b + seq![StepView::WaitBusy(REFRESH_WAIT_MS)]);
        push_command(&mut steps, CMD_POF, Some(zero.as_slice()), max_chunk);
        let ghost c = steps_view(steps@);
        steps.push(PanelStep::WaitBusy(DEFAULT_WAIT_MS));
        assert(steps_view(steps@) =~= c + seq![StepView::WaitBusy(DEFAULT_WAIT_MS)]);
        assert(steps_view(steps@) =~= show_plan(self.bytes(), max_chunk as nat));
        steps
    }
}

/// Whether to keep polling the busy line: the controller has not signalled ready yet and the
/// wait has lasted less than its timeout.
pub fn keep_waiting(busy: bool, elapsed_ms: u64, timeout_ms: u64) -> (r: bool)
    ensures
        r == (!busy && elapsed_ms < timeout_ms),
{
    !busy && elapsed_ms < timeout_ms
}

/// The button wired to input line number `line` of the button line group, if any.
pub fn button_for_line(line: u32) -> (b: Option<Button>)
    ensures
        line == 0 ==> b == Some(Button::A),
        line == 1 ==> b == Some(Button::B),
        line == 2 ==> b == Some(Button::C),
        line == 3 ==> b == Some(Button::D),
        line > 3 ==> b is None,
{
    match line {
        0 => Some(Button::A),
        1 => Some(Button::B),
        2 => Some(Button::C),
        3 => Some(Button::D),
        _ => None,
    }
}

/// What is drawn is what the controller receives: the frame data sent after the data start
/// command, its transfers put back together, holds each pixel's color code in its half byte.
pub proof fn lemma_controller_receives_frame(inky: Inky, size: nat, x: int, y: int)
    requires
        inky.wf(),
        size > 0,
        on_screen(x, y),
    ensures
        packed_nibble(joined(chunks(inky.bytes(), size)), x + y * RESOLUTION_X) == color_code(
            (inky.pixels())(x, y),
        ),
{
    lemma_chunks_cover(inky.bytes(), size);
    let i = x + y * RESOLUTION_X;
    assert(0 <= i < RESOLUTION_X * RESOLUTION_Y) by (nonlinear_arith)
        requires
            0 <= x < 800,
            0 <= y < 480,
            i == x + y * 800,
    ;
    lemma_code_color_roundtrip(packed_nibble(inky.bytes(), i));
}

/// What the controller holds after one step: whether it is in data mode, and the commands it has
/// received so far, each with the data bytes sent after it. The data/command line sets the
/// mode; a transfer in command mode brings one command per byte, and a transfer in data mode
/// adds its bytes to the data of the last command.
pub open spec fn controller_step(state: (bool, Seq<(u8, Seq<u8>)>), step: StepView) -> (bool, Seq<(u8, Seq<u8>)>) {
    let (data_mode, got) = state;
    match step {
        StepView::DataMode(d) => (d, got),
        StepView::Transfer(bytes) => if !data_mode {
            (data_mode, got + bytes.map_values(|b: u8| (b, Seq::<u8>::empty())))
        } else if got.len() == 0 {
            state
        } else {
            (data_mode, got.drop_last().push((got.last().0, got.last().1 + bytes)))
        },
        _ => state,
    }
}

/// What the controller holds after the steps, from `state`.
pub open spec fn controller_run(state: (bool, Seq<(u8, Seq<u8>)>), steps: Seq<StepView>) -> (bool, Seq<(u8, Seq<u8>)>)
    decreases steps.len(),
{
    if steps.len() == 0 {
        state
    } else {
        controller_run(controller_step(state, steps[0]), steps.drop_first())
    }
}

/// The commands a freshly reset controller receives from the steps, each with its data.
pub open spec fn received(steps: Seq<StepView>) -> Seq<(u8, Seq<u8>)> {
    controller_run((false, seq![]), steps).1
}

/// The panel's reference initialisation: each controller register with the data written to it,
/// in the order they are written.
pub open spec fn panel_init_registers() -> Seq<(u8, Seq<u8>)> {
    seq![
        (0xaau8, seq![0x49u8, 0x55, 0x20, 0x08, 0x09, 0x18]),
        (0x01u8, seq![0x3fu8]),
        (0x00u8, seq![0x5fu8, 0x69]),
        (0x03u8, seq![0x00u8, 0x54, 0x00, 0x44]),
        (0x05u8, seq![0x40u8, 0x1f, 0x1f, 0x2c]),
        (0x06u8, seq![0x6fu8, 0x1f, 0x17, 0x49]),
        (0x08u8, seq![0x6fu8, 0x1f, 0x1f, 0x22]),
        (0x30u8, seq![0x03u8]),
        (0x50u8, seq![0x3fu8]),
        (0x60u8, seq![0x02u8, 0x00]),
        (0x61u8, seq![0x03u8, 0x20, 0x01, 0xe0]),
        (0x82u8, seq![0x01u8]),
        (0xe3u8, seq![0x2fu8]),
    ]
}

/// Running steps one after another is running the first, then the second from where it left.
proof fn lemma_controller_run_concat(state: (bool, Seq<(u8, Seq<u8>)>), a: Seq<StepView>, b: Seq<StepView>)
    ensures
        controller_run(state, a + b) == controller_run(controller_run(state, a), b),
    decreases a.len(),
{
    if a.len() == 0 {
        assert(a + b =~= b);
    } else {
        assert((a + b)[0] == a[0]);
        assert((a + b).drop_first() =~= a.drop_first() + b);
        lemma_controller_run_concat(controller_step(state, a[0]), a.drop_first(), b);
    }
}

/// In data mode, transfers add their bytes, in order, to the data of the last command.
proof fn lemma_controller_data_pieces(g: Seq<(u8, Seq<u8>)>, c: u8, e: Seq<u8>, pieces: Seq<Seq<u8>>)
    ensures
        controller_run((true, g.push((c, e))), pieces.map_values(|p: Seq<u8>| StepView::Transfer(p))) == (
            true,
            g.push((c, e + joined(pieces))),
        ),
    decreases pieces.len(),
{
    let steps = pieces.map_values(|p: Seq<u8>| StepView::Transfer(p));
    if pieces.len() == 0 {
        assert(e + joined(pieces) =~= e);
    } else {
        assert(g.push((c, e)).drop_last() =~= g);
        assert(steps[0] == StepView::Transfer(pieces[0]));
        assert(steps.drop_first() =~= pieces.drop_first().map_values(|p: Seq<u8>| StepView::Transfer(p)));
        lemma_controller_data_pieces(g, c, e + pieces[0], pieces.drop_first());
        assert(e + pieces[0] + joined(pieces.drop_first()) =~= e + joined(pieces));
    }
}

/// Sending a command with its data makes the controller receive that command with exactly that
/// data, whatever the size of the transfers, and leaves it in data mode.
proof fn lemma_controller_command(mode: bool, g: Seq<(u8, Seq<u8>)>, command: u8, data: Seq<u8>, size: nat)
    requires
        size > 0,
    ensures
        controller_run((mode, g), command_plan(command, Some(data), size)) == (true, g.push((command, data))),
{
    let head = seq![StepView::ChipSelect(false), StepView::DataMode(false), StepView::Transfer(seq![command])];
    let body = seq![StepView::DataMode(true)] + chunk_transfers(data, size);
    let tail = seq![StepView::ChipSelect(true)];
    assert(command_plan(command, Some(data), size) == head + body + tail);
    lemma_controller_run_concat((mode, g), head + body, tail);
    lemma_controller_run_concat((mode, g), head, body);
    assert(seq![command].map_values(|b: u8| (b, Seq::<u8>::empty())) =~= seq![(command, Seq::<u8>::empty())]);
    let g2 = g.push((command, Seq::<u8>::empty()));
    let h1 = head.drop_first();
    let h2 = h1.drop_first();
    let h3 = h2.drop_first();
    assert(h1 =~= seq![StepView::DataMode(false), StepView::Transfer(seq![command])]);
    assert(h2 =~= seq![StepView::Transfer(seq![command])]);
    assert(h3 =~= Seq::<StepView>::empty());
    assert(g + seq![(command, Seq::<u8>::empty())] =~= g2);
    assert(controller_run((false, g2), h3) == (false, g2));
    assert(controller_run((false, g), h2) == controller_run((false, g2), h3));
    assert(controller_run((mode, g), h1) == controller_run((false, g), h2));
    assert(controller_run((mode, g), head) == controller_run((mode, g), h1));
    lemma_controller_run_concat(
        (false, g.push((command, Seq::<u8>::empty()))),
        seq![StepView::DataMode(true)],
        chunk_transfers(data, size),
    );
    assert(seq![StepView::DataMode(true)].drop_first() =~= Seq::<StepView>::empty());
    assert(controller_run((false, g2), seq![StepView::DataMode(true)]) == controller_run(
        (true, g2),
        Seq::<StepView>::empty(),
    ));
    lemma_controller_data_pieces(g, command, Seq::<u8>::empty(), chunks(data, size));
    lemma_chunks_cover(data, size);
    assert(Seq::<u8>::empty() + joined(chunks(data, size)) =~= data);
    let done = (true, g.push((command, data)));
    assert(controller_run((false, g2), body) == done);
    assert(controller_run((mode, g), head + body) == done);
    assert(tail.drop_first() =~= Seq::<StepView>::empty());
    assert(controller_run(done, tail) == controller_run(done, Seq::<StepView>::empty()));
}

/// Sending one more command with its data after `steps` adds that command with that data to
/// what a freshly reset controller has received.
proof fn lemma_received_append(steps: Seq<StepView>, command: u8, data: Seq<u8>, size: nat)
    requires
        size > 0,
    ensures
        received(steps + command_plan(command, Some(data), size)) == received(steps).push((command, data)),
{
    let start = (false, Seq::<(u8, Seq<u8>)>::empty());
    lemma_controller_run_concat(start, steps, command_plan(command, Some(data), size));
    let (mode, got) = controller_run(start, steps);
    lemma_controller_command(mode, got, command, data, size);
}

/// Whatever the size of the transfers, the setup sequence writes to the controller exactly the
/// panel's reference initialisation: every register, in order, with its data bytes and nothing
/// else.
#[verifier::rlimit(40)]
pub proof fn lemma_setup_writes_reference_registers(size: nat)
    requires
        size > 0,
    ensures
        received(setup_plan(size)) == panel_init_registers(),
{
    let reset = seq![
        StepView::Reset(false),
        StepView::Sleep(30),
        StepView::Reset(true),
        StepView::Sleep(30),
        StepView::WaitBusy(DEFAULT_WAIT_MS),
    ];
    assert(received(reset) == Seq::<(u8, Seq<u8>)>::empty()) by {
        let start = (false, Seq::<(u8, Seq<u8>)>::empty());
        let r1 = reset.drop_first();
        let r2 = r1.drop_first();
        let r3 = r2.drop_first();
        let r4 = r3.drop_first();
        let r5 = r4.drop_first();
        assert(r1 =~= seq![StepView::Sleep(30), StepView::Reset(true), StepView::Sleep(30), StepView::WaitBusy(DEFAULT_WAIT_MS)]);
        assert(r2 =~= seq![StepView::Reset(true), StepView::Sleep(30), StepView::WaitBusy(DEFAULT_WAIT_MS)]);
        assert(r3 =~= seq![StepView::Sleep(30), StepView::WaitBusy(DEFAULT_WAIT_MS)]);
        assert(r4 =~= seq![StepView::WaitBusy(DEFAULT_WAIT_MS)]);
        assert(r5 =~= Seq::<StepView>::empty());
        assert(controller_run(start, r5) == start);
        assert(controller_run(start, r4) == controller_run(start, r5));
        assert(controller_run(start, r3) == controller_run(start, r4));
        assert(controller_run(start, r2) == controller_run(start, r3));
        assert(controller_run(start, r1) == controller_run(start, r2));
        assert(controller_run(start, reset) == controller_run(start, r1));
    }
    let regs = panel_init_registers();
    let q1 = reset + command_plan(CMD_CMDH, Some(regs[0].1), size);
    lemma_received_append(reset, CMD_CMDH, regs[0].1, size);
    let q2 = q1 + command_plan(CMD_PWR, Some(regs[1].1), size);
    lemma_received_append(q1, CMD_PWR, regs[1].1, size);
    let q3 = q2 + command_plan(CMD_PSR, Some(regs[2].1), size);
    lemma_received_append(q2, CMD_PSR, regs[2].1, size);
    let q4 = q3 + command_plan(CMD_POFS, Some(regs[3].1), size);
    lemma_received_append(q3, CMD_POFS, regs[3].1, size);
    let q5 = q4 + command_plan(CMD_BTST1, Some(regs[4].1), size);
    lemma_received_append(q4, CMD_BTST1, regs[4].1, size);
    let q6 = q5 + command_plan(CMD_BTST2, Some(regs[5].1), size);
    lemma_received_append(q5, CMD_BTST2, regs[5].1, size);
    let q7 = q6 + command_plan(CMD_BTST3, Some(regs[6].1), size);
    lemma_received_append(q6, CMD_BTST3, regs[6].1, size);
    let q8 = q7 + command_plan(CMD_PLL, Some(regs[7].1), size);
    lemma_received_append(q7, CMD_PLL, regs[7].1, size);
    let q9 = q8 + command_plan(CMD_CDI, Some(regs[8].1), size);
    lemma_received_append(q8, CMD_CDI, regs[8].1, size);
    let q10 = q9 + command_plan(CMD_TCON, Some(regs[9].1), size);
    lemma_received_append(q9, CMD_TCON, regs[9].1, size);
    let q11 = q10 + command_plan(CMD_TRES, Some(regs[10].1), size);
    lemma_received_append(q10, CMD_TRES, regs[10].1, size);
    let q12 = q11 + command_plan(CMD_VDCS, Some(regs[11].1), size);
    lemma_received_append(q11, CMD_VDCS, regs[11].1, size);
    let q13 = q12 + command_plan(CMD_PWS, Some(regs[12].1), size);
    lemma_received_append(q12, CMD_PWS, regs[12].1, size);
    assert(setup_plan(size) == q13);
    assert(received(q13) =~= regs);
}

/// Sending a command without data after `steps` adds that command, with no data, to what a
/// freshly reset controller has received; waiting for the controller adds nothing.
proof fn lemma_received_append_bare(steps: Seq<StepView>, command: u8, size: nat, ms: u64)
    ensures
        received(steps + command_plan(command, None, size)) == received(steps).push((command, Seq::<u8>::empty())),
        received(steps + seq![StepView::WaitBusy(ms)]) == received(steps),
{
    let start = (false, Seq::<(u8, Seq<u8>)>::empty());
    let plan = command_plan(command, None, size);
    lemma_controller_run_concat(start, steps, plan);
    lemma_controller_run_concat(start, steps, seq![StepView::WaitBusy(ms)]);
    let (mode, g) = controller_run(start, steps);
    let g2 = g.push((command, Seq::<u8>::empty()));
    let h1 = plan.drop_first();
    let h2 = h1.drop_first();
    let h3 = h2.drop_first();
    let h4 = h3.drop_first();
    assert(plan =~= seq![
        StepView::ChipSelect(false),
        StepView::DataMode(false),
        StepView::Transfer(seq![command]),
        StepView::ChipSelect(true),
    ]);
    assert(h1 =~= seq![StepView::DataMode(false), StepView::Transfer(seq![command]), StepView::ChipSelect(true)]);
    assert(h2 =~= seq![StepView::Transfer(seq![command]), StepView::ChipSelect(true)]);
    assert(h3 =~= seq![StepView::ChipSelect(true)]);
    assert(h4 =~= Seq::<StepView>::empty());
    assert(seq![command].map_values(|b: u8| (b, Seq::<u8>::empty())) =~= seq![(command, Seq::<u8>::empty())]);
    assert(g + seq![(command, Seq::<u8>::empty())] =~= g2);
    assert(controller_run((false, g2), h4) == (false, g2));
    assert(controller_run((false, g2), h3) == controller_run((false, g2), h4));
    assert(controller_run((false, g), h2) == controller_run((false, g2), h3));
    assert(controller_run((mode, g), h1) == controller_run((false, g), h2));
    assert(controller_run((mode, g), plan) == controller_run((mode, g), h1));
    assert(seq![StepView::WaitBusy(ms)].drop_first() =~= Seq::<StepView>::empty());
    assert(controller_run((mode, g), seq![StepView::WaitBusy(ms)]) == controller_run(
        (mode, g),
        Seq::<StepView>::empty(),
    ));
}

/// Showing a frame makes the controller receive the frame's bytes, whatever the size of the
/// transfers, as the data of the data start command, then the power on command, the refresh
/// command with data 0 and the power off command with data 0, and nothing else.
pub proof fn lemma_show_sends_frame(frame: Seq<u8>, size: nat)
    requires
        size > 0,
    ensures
        received(show_plan(frame, size)) == seq![
            (0x10u8, frame),
            (0x04u8, Seq::<u8>::empty()),
            (0x12u8, seq![0x00u8]),
            (0x02u8, seq![0x00u8]),
        ],
{
    let q1 = command_plan(CMD_DTM1, Some(frame), size);
    assert(q1 =~= Seq::<StepView>::empty() + q1);
    lemma_received_append(Seq::<StepView>::empty(), CMD_DTM1, frame, size);
    assert(received(Seq::<StepView>::empty()) == Seq::<(u8, Seq<u8>)>::empty());
    let q2 = q1 + command_plan(CMD_PON, None, size);
    lemma_received_append_bare(q1, CMD_PON, size, DEFAULT_WAIT_MS);
    let q3 = q2 + seq![StepView::WaitBusy(DEFAULT_WAIT_MS)];
    lemma_received_append_bare(q2, CMD_PON, size, DEFAULT_WAIT_MS);
    let q4 = q3 + command_plan(CMD_DRF, Some(seq![0x00u8]), size);
    lemma_received_append(q3, CMD_DRF, seq![0x00u8], size);
    let q5 = q4 + seq![StepView::WaitBusy(REFRESH_WAIT_MS)];
    lemma_received_append_bare(q4, CMD_PON, size, REFRESH_WAIT_MS);
    let q6 = q5 + command_plan(CMD_POF, Some(seq![0x00u8]), size);
    lemma_received_append(q5, CMD_POF, seq![0x00u8], size);
    let q7 = q6 + seq![StepView::WaitBusy(DEFAULT_WAIT_MS)];
    lemma_received_append_bare(q6, CMD_PON, size, DEFAULT_WAIT_MS);
    assert(show_plan(frame, size) == q7);
    assert(received(q7) =~= seq![
        (0x10u8, frame),
        (0x04u8, Seq::<u8>::empty()),
        (0x12u8, seq![0x00u8]),
        (0x02u8, seq![0x00u8]),
    ]);
}

} // verus!
