use std::io::Read;
use std::io::Write;

use nx_core::pump::process_chunk;
use nx_core::screen::ScreenModel;
use portable_pty::{CommandBuilder, NativePtySystem, PtySize, PtySystem};

#[test]
fn echo_output_reaches_frames_and_screen() {
    let pty_system = NativePtySystem::default();
    let pair = pty_system
        .openpty(PtySize { rows: 24, cols: 80, pixel_width: 0, pixel_height: 0 })
        .unwrap();
    let mut cmd = CommandBuilder::new("sh");
    cmd.arg("-c");
    cmd.arg("echo hello");
    let mut child = pair.slave.spawn_command(cmd).unwrap();
    drop(pair.slave);
    let mut reader = pair.master.try_clone_reader().unwrap();
    let status = child.wait().unwrap();
    assert!(status.success());
    drop(pair.master);

    let mut model = ScreenModel::new(24, 80);
    let mut frames = String::new();
    let mut buf = [0u8; 8192];
    loop {
        let len = match reader.read(&mut buf) {
            Ok(n) => n,
            Err(_) => 0,
        };
        if len == 0 {
            break;
        }
        let out = process_chunk(&buf[0..len], false);
        frames.push_str(&out.frame);
        model.process(&buf[0..len]);
    }
    assert!(frames.contains("hello"));
    assert!(model.contents().contains("hello"));
}

#[test]
fn written_input_reaches_the_child() {
    let pty_system = NativePtySystem::default();
    let pair = pty_system
        .openpty(PtySize { rows: 24, cols: 80, pixel_width: 0, pixel_height: 0 })
        .unwrap();
    let mut cmd = CommandBuilder::new("sh");
    cmd.arg("-c");
    cmd.arg("read line; echo got:$line");
    let mut child = pair.slave.spawn_command(cmd).unwrap();
    drop(pair.slave);
    let mut writer = pair.master.take_writer().unwrap();
    writer.write_all(b"abc\n").unwrap();
    writer.flush().unwrap();
    let mut reader = pair.master.try_clone_reader().unwrap();
    let status = child.wait().unwrap();
    assert!(status.success());
    drop(writer);
    drop(pair.master);

    let mut collected = String::new();
    let mut buf = [0u8; 8192];
    loop {
        let len = match reader.read(&mut buf) {
            Ok(n) => n,
            Err(_) => 0,
        };
        if len == 0 {
            break;
        }
        collected.push_str(&String::from_utf8_lossy(&buf[0..len]));
    }
    assert!(collected.contains("got:abc"));
}
