use eink_frame::hardware::{
    button_for_line, keep_waiting, push_command, setup_steps, Inky, PanelStep, CMD_CMDH,
    CMD_DRF, CMD_DTM1, CMD_POF, CMD_PON, CMD_PWS, DEFAULT_WAIT_MS, REFRESH_WAIT_MS,
};
use eink_frame::{Button, Color, Panel};

fn transfers(steps: &[PanelStep]) -> Vec<Vec<u8>> {
    steps
        .iter()
        .filter_map(|s| match s {
            PanelStep::Transfer(bytes) => Some(bytes.clone()),
            _ => None,
        })
        .collect()
}

#[test]
fn new_panel_frame_is_all_black() {
    let inky = Inky::new();
    assert_eq!(inky.as_bytes().len(), 800 * 480 / 2);
    assert!(inky.as_bytes().iter().all(|&b| b == 0));
}

#[test]
fn pixels_pack_two_to_a_byte_high_half_first() {
    let mut inky = Inky::new();
    inky.set_pixel(0, 0, Color::White);
    assert_eq!(inky.as_bytes()[0], 0x10);
    inky.set_pixel(1, 0, Color::Red);
    assert_eq!(inky.as_bytes()[0], 0x13);
    inky.set_pixel(0, 0, Color::Blue);
    assert_eq!(inky.as_bytes()[0], 0x63);
    inky.set_pixel(1, 1, Color::Green);
    assert_eq!(inky.as_bytes()[400], 0x05);
    inky.set_pixel(799, 479, Color::Yellow);
    assert_eq!(inky.as_bytes()[800 * 480 / 2 - 1], 0x02);
}

#[test]
fn panel_clear_writes_white_codes() {
    let mut inky = Inky::new();
    inky.clear();
    assert!(inky.as_bytes().iter().all(|&b| b == 0x11));
}

#[test]
fn command_without_data() {
    let mut steps = Vec::new();
    push_command(&mut steps, CMD_PON, None, 4);
    assert_eq!(steps.len(), 4);
    assert!(matches!(steps[0], PanelStep::ChipSelect(false)));
    assert!(matches!(steps[1], PanelStep::DataMode(false)));
    assert_eq!(transfers(&steps), vec![vec![CMD_PON]]);
    assert!(matches!(steps[3], PanelStep::ChipSelect(true)));
}

#[test]
fn command_data_goes_in_pieces_of_at_most_the_buffer_size() {
    let mut steps = Vec::new();
    let data = [1u8, 2, 3, 4, 5];
    push_command(&mut steps, CMD_CMDH, Some(&data[..]), 2);
    assert!(matches!(steps[3], PanelStep::DataMode(true)));
    assert_eq!(
        transfers(&steps),
        vec![vec![CMD_CMDH], vec![1, 2], vec![3, 4], vec![5]]
    );
    assert!(matches!(steps.last(), Some(PanelStep::ChipSelect(true))));
}

#[test]
fn command_pieces_join_back_to_the_data() {
    for size in 1..9 {
        let data: Vec<u8> = (0..23).collect();
        let mut steps = Vec::new();
        push_command(&mut steps, CMD_DTM1, Some(&data[..]), size);
        let pieces = transfers(&steps);
        let joined: Vec<u8> = pieces[1..].concat();
        assert_eq!(joined, data);
        assert!(pieces[1..].iter().all(|p| !p.is_empty() && p.len() <= size));
    }
}

#[test]
fn empty_data_still_switches_to_data_mode() {
    let mut steps = Vec::new();
    push_command(&mut steps, CMD_DRF, Some(&[][..]), 8);
    assert_eq!(steps.len(), 5);
    assert!(matches!(steps[3], PanelStep::DataMode(true)));
    assert_eq!(transfers(&steps), vec![vec![CMD_DRF]]);
}

#[test]
fn setup_resets_then_configures() {
    let steps = setup_steps(4096);
    assert!(matches!(steps[0], PanelStep::Reset(false)));
    assert!(matches!(steps[1], PanelStep::Sleep(30)));
    assert!(matches!(steps[2], PanelStep::Reset(true)));
    assert!(matches!(steps[3], PanelStep::Sleep(30)));
    assert!(matches!(steps[4], PanelStep::WaitBusy(DEFAULT_WAIT_MS)));
    assert_eq!(steps.len(), 5 + 13 * 6);
    let t = transfers(&steps);
    assert_eq!(t[0], vec![CMD_CMDH]);
    assert_eq!(t[1], vec![0x49, 0x55, 0x20, 0x08, 0x09, 0x18]);
    assert_eq!(t[24], vec![CMD_PWS]);
    assert_eq!(t[25], vec![0x2f]);
    assert_eq!(t[20], vec![0x61]);
    assert_eq!(t[21], vec![0x03, 0x20, 0x01, 0xe0]);
}

#[test]
fn show_sends_the_frame_then_refreshes() {
    let mut inky = Inky::new();
    inky.set_pixel(0, 0, Color::White);
    let steps = inky.show_steps(100_000);
    let t = transfers(&steps);
    assert_eq!(t[0], vec![CMD_DTM1]);
    assert_eq!(t[1].len() + t[2].len(), 192_000);
    assert_eq!(t[1][0], 0x10);
    assert_eq!(t[3], vec![CMD_PON]);
    assert_eq!(t[4], vec![CMD_DRF]);
    assert_eq!(t[5], vec![0x00]);
    assert_eq!(t[6], vec![CMD_POF]);
    assert_eq!(t[7], vec![0x00]);
    let waits: Vec<u64> = steps
        .iter()
        .filter_map(|s| match s {
            PanelStep::WaitBusy(ms) => Some(*ms),
            _ => None,
        })
        .collect();
    assert_eq!(waits, vec![DEFAULT_WAIT_MS, REFRESH_WAIT_MS, DEFAULT_WAIT_MS]);
}

#[test]
fn busy_wait_stops_when_ready_or_late() {
    assert!(keep_waiting(false, 0, 300));
    assert!(keep_waiting(false, 299, 300));
    assert!(!keep_waiting(false, 300, 300));
    assert!(!keep_waiting(true, 0, 300));
}

#[test]
fn button_lines() {
    assert_eq!(button_for_line(0), Some(Button::A));
    assert_eq!(button_for_line(1), Some(Button::B));
    assert_eq!(button_for_line(2), Some(Button::C));
    assert_eq!(button_for_line(3), Some(Button::D));
    assert_eq!(button_for_line(4), None);
}

#[test]
fn the_controller_receives_what_was_drawn() {
    let mut inky = Inky::new();
    inky.set_pixel(0, 0, Color::Yellow);
    inky.set_pixel(3, 0, Color::Red);
    inky.set_pixel(799, 479, Color::Blue);
    let steps = inky.show_steps(1000);
    // The frame data: the transfers between the data start command and the next chip release.
    let mut frame = Vec::new();
    let mut in_frame = false;
    for step in &steps {
        match step {
            PanelStep::Transfer(bytes) if bytes == &vec![CMD_DTM1] && !in_frame => in_frame = true,
            PanelStep::Transfer(bytes) if in_frame => frame.extend_from_slice(bytes),
            PanelStep::ChipSelect(true) if in_frame => break,
            _ => (),
        }
    }
    assert_eq!(frame.len(), 192_000);
    let nibble = |i: usize| if i % 2 == 0 { frame[i / 2] >> 4 } else { frame[i / 2] & 0x0f };
    assert_eq!(nibble(0), 2);
    assert_eq!(nibble(1), 0);
    assert_eq!(nibble(3), 3);
    assert_eq!(nibble(799 + 479 * 800), 6);
}
