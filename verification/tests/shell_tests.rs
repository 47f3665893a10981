use font8x8::UnicodeFonts;
use luna::shell::{KeyOutcome, LunaListeners, LunaLine, LunaRenderer, LunaShell};
use luna::vga_buffer::{Bitmap, Color, Writer};

fn line_text(line: &LunaLine) -> String {
    let mut s = String::new();
    for sc in &line.chars {
        s.push(sc.character);
    }
    s
}

fn type_line(
    shell: &mut LunaShell<u32>,
    renderer: &mut LunaRenderer,
    listeners: &LunaListeners<u8>,
    writer: &mut Writer,
    text: &str,
) -> KeyOutcome {
    let mut last = KeyOutcome::Handled;
    for c in text.chars() {
        last = shell.keyboard_event(c, renderer, listeners, writer);
    }
    last
}

#[test]
fn renderer_write_builds_lines() {
    let mut r = LunaRenderer::new();
    r.write_string("hi\nthere");
    assert_eq!(r.lines.len(), 2);
    assert_eq!(line_text(&r.lines[0]), "hi");
    assert_eq!(line_text(&r.lines[1]), "there");
    assert_eq!(r.lines[0].chars[0].color, Color::LightGray);
}

#[test]
fn renderer_drops_nonprintable_bytes() {
    let mut r = LunaRenderer::new();
    r.write_string("a\tb\u{7f}c");
    assert_eq!(r.lines.len(), 1);
    assert_eq!(line_text(&r.lines[0]), "abc");
}

#[test]
fn scrollback_keeps_newest_21_lines() {
    let mut r = LunaRenderer::new();
    let mut w = Writer::new();
    for i in 0..25 {
        r.write_string(&format!("l{}\n", i));
    }
    assert_eq!(r.lines.len(), 26); // 25 closed lines and the open empty one
    r.draw(&mut w);
    assert_eq!(r.lines.len(), 21);
    // the oldest lines were evicted: l0..l4 are gone, l5 is first
    assert_eq!(line_text(&r.lines[0]), "l5");
    assert_eq!(line_text(&r.lines[19]), "l24");
    assert_eq!(line_text(&r.lines[20]), "");
}

#[test]
fn draw_caches_each_line_once() {
    let mut r = LunaRenderer::new();
    let mut w = Writer::new();
    r.write_string("hello\n");
    assert_eq!(r.lines[0].bitmap.width, 0);
    r.draw(&mut w);
    assert_eq!(r.lines[0].bitmap.width, 319);
    assert_eq!(r.lines[0].bitmap.height, 8);
    let first_cache = r.lines[0].bitmap.data.clone();
    r.draw(&mut w);
    assert_eq!(r.lines[0].bitmap.data, first_cache);
}

#[test]
fn cached_line_holds_its_rasterization() {
    let mut r = LunaRenderer::new();
    let mut w = Writer::new();
    r.write_string("hi\n");
    r.draw(&mut w);
    // the cached raster is the glyph rendering of "hi" over a black band
    let glyph_h = font8x8::BASIC_FONTS.get('h').unwrap();
    let glyph_i = font8x8::BASIC_FONTS.get('i').unwrap();
    let cache = &r.lines[0].bitmap;
    for dy in 0..8 {
        for dx in 0..16 {
            let (glyph, bit) = if dx < 8 { (&glyph_h, dx) } else { (&glyph_i, dx - 8) };
            let expected = if (glyph[dy] >> bit) & 1 == 1 { 7 } else { 0 };
            assert_eq!(cache.data[dy * 319 + dx], expected);
        }
        // past the text the band is black
        assert_eq!(cache.data[dy * 319 + 20], 0);
    }
}

#[test]
fn prompt_row_shows_typed_input() {
    let mut shell: LunaShell<u32> = LunaShell::new();
    let mut r = LunaRenderer::new();
    let listeners: LunaListeners<u8> = LunaListeners::new();
    let mut w = Writer::new();
    shell.keyboard_event('q', &mut r, &listeners, &mut w);
    // block 0 of the prompt row: a light blue '>'
    let arrow = font8x8::BASIC_FONTS.get('>').unwrap();
    let q = font8x8::BASIC_FONTS.get('q').unwrap();
    for dy in 0..8 {
        for dx in 0..8 {
            let ex_arrow = if (arrow[dy] >> dx) & 1 == 1 { 9 } else { 0 };
            assert_eq!(w.buffer[(188 + dy) * 320 + dx], ex_arrow);
            let ex_q = if (q[dy] >> dx) & 1 == 1 { 7 } else { 0 };
            assert_eq!(w.buffer[(188 + dy) * 320 + 8 + dx], ex_q);
        }
    }
    // and the frame was committed
    assert_eq!(w.screen, w.buffer);
}

#[test]
fn typing_skips_repaint_backspace_forces_one() {
    let mut shell: LunaShell<u32> = LunaShell::new();
    let mut r = LunaRenderer::new();
    let listeners: LunaListeners<u8> = LunaListeners::new();
    let mut w = Writer::new();
    r.write_string("hi\n");
    // first draw: full repaint, caches the line, records input length 0
    shell.keyboard_event('\u{0000}', &mut r, &listeners, &mut w);
    assert_eq!(r.last_input_length, 0);
    // scribble outside the prompt row; a repaint would erase it
    w.write_raw_pixel(0, 100, 9);
    // plain typing strictly grows the input: no repaint, scribble survives
    shell.keyboard_event('a', &mut r, &listeners, &mut w);
    assert_eq!(w.buffer[100 * 320], 9);
    shell.keyboard_event('b', &mut r, &listeners, &mut w);
    assert_eq!(w.buffer[100 * 320], 9);
    // backspace does not grow the input: the next draw repaints fully
    shell.keyboard_event('\u{0008}', &mut r, &listeners, &mut w);
    assert_eq!(w.buffer[100 * 320], 0);
    assert_eq!(shell.input, vec!['a']);
}

#[test]
fn whole_token_prefix_selects_echoall() {
    let mut shell: LunaShell<u32> = LunaShell::new();
    let mut r = LunaRenderer::new();
    let listeners: LunaListeners<u8> = LunaListeners::new();
    let mut w = Writer::new();
    shell.add_command(vec!['e', 'c', 'h', 'o'], 1);
    shell.add_command(vec!['e', 'c', 'h', 'o', 'a', 'l', 'l'], 2);
    let out = type_line(&mut shell, &mut r, &listeners, &mut w, "echoall x\n");
    match out {
        KeyOutcome::Dispatch { index, args } => {
            assert_eq!(index, 1);
            assert_eq!(args, vec!['x']);
        }
        _ => panic!("expected a dispatch"),
    }
    shell.finish_dispatch(&mut r, &mut w);
    assert_eq!(shell.input.len(), 0);
}

#[test]
fn partial_word_prefix_matches_nothing() {
    let mut shell: LunaShell<u32> = LunaShell::new();
    let mut r = LunaRenderer::new();
    let listeners: LunaListeners<u8> = LunaListeners::new();
    let mut w = Writer::new();
    shell.add_command(vec!['e', 'c', 'h', 'o'], 1);
    shell.add_command(vec!['e', 'c', 'h', 'o', 'a', 'l', 'l'], 2);
    let out = type_line(&mut shell, &mut r, &listeners, &mut w, "echox\n");
    assert!(matches!(out, KeyOutcome::Handled));
    // the message is on the line before the trailing empty one
    let n = r.lines.len();
    assert_eq!(line_text(&r.lines[n - 2]), "Unknown Command.");
    assert_eq!(r.color, Color::LightRed);
    assert_eq!(shell.input.len(), 0);
}

#[test]
fn exact_trigger_with_no_args_dispatches() {
    let mut shell: LunaShell<u32> = LunaShell::new();
    let mut r = LunaRenderer::new();
    let listeners: LunaListeners<u8> = LunaListeners::new();
    let mut w = Writer::new();
    shell.add_command(vec!['e', 'c', 'h', 'o'], 1);
    let out = type_line(&mut shell, &mut r, &listeners, &mut w, "echo\n");
    match out {
        KeyOutcome::Dispatch { index, args } => {
            assert_eq!(index, 0);
            assert_eq!(args, Vec::<char>::new());
        }
        _ => panic!("expected a dispatch"),
    }
}

#[test]
fn empty_input_is_unknown_command() {
    let mut shell: LunaShell<u32> = LunaShell::new();
    let mut r = LunaRenderer::new();
    let listeners: LunaListeners<u8> = LunaListeners::new();
    let mut w = Writer::new();
    shell.add_command(vec!['e', 'c', 'h', 'o'], 1);
    let out = shell.keyboard_event('\n', &mut r, &listeners, &mut w);
    assert!(matches!(out, KeyOutcome::Handled));
    let n = r.lines.len();
    assert_eq!(line_text(&r.lines[n - 2]), "Unknown Command.");
}

#[test]
fn echo_line_shows_prompt_and_input() {
    let mut shell: LunaShell<u32> = LunaShell::new();
    let mut r = LunaRenderer::new();
    let listeners: LunaListeners<u8> = LunaListeners::new();
    let mut w = Writer::new();
    type_line(&mut shell, &mut r, &listeners, &mut w, "hey\n");
    // the echo line is the one holding "> hey" without a space
    let mut found = false;
    for line in &r.lines {
        if line_text(line) == ">hey" {
            found = true;
            assert_eq!(line.chars[0].color, Color::Blue);
            assert_eq!(line.chars[1].color, Color::LightGray);
        }
    }
    assert!(found);
}

#[test]
fn earliest_registration_wins() {
    let mut shell: LunaShell<u32> = LunaShell::new();
    let mut r = LunaRenderer::new();
    let listeners: LunaListeners<u8> = LunaListeners::new();
    let mut w = Writer::new();
    shell.add_command(vec!['d', 'u', 'p'], 1);
    shell.add_command(vec!['d', 'u', 'p'], 2);
    let out = type_line(&mut shell, &mut r, &listeners, &mut w, "dup\n");
    match out {
        KeyOutcome::Dispatch { index, .. } => assert_eq!(index, 0),
        _ => panic!("expected a dispatch"),
    }
}

#[test]
fn handler_receives_exact_args() {
    let mut shell: LunaShell<u32> = LunaShell::new();
    let mut r = LunaRenderer::new();
    let listeners: LunaListeners<u8> = LunaListeners::new();
    let mut w = Writer::new();
    shell.add_command(vec!['s', 'e', 't'], 1);
    let out = type_line(&mut shell, &mut r, &listeners, &mut w, "set abc\n");
    match out {
        KeyOutcome::Dispatch { index, args } => {
            assert_eq!(index, 0);
            assert_eq!(args, vec!['a', 'b', 'c']);
        }
        _ => panic!("expected a dispatch"),
    }
}

#[test]
fn listener_steals_keys_and_restores_editing() {
    let mut shell: LunaShell<u32> = LunaShell::new();
    let mut r = LunaRenderer::new();
    let mut listeners: LunaListeners<u8> = LunaListeners::new();
    let mut w = Writer::new();
    shell.add_command(vec!['g', 'o'], 1);
    type_line(&mut shell, &mut r, &listeners, &mut w, "ab");
    assert_eq!(shell.input, vec!['a', 'b']);
    listeners.push_listener(7);
    assert_eq!(*listeners.top_listener(), 7);
    // every key, even newline and backspace, is forwarded verbatim
    for key in ['x', '\n', '\u{0008}'] {
        let out = shell.keyboard_event(key, &mut r, &listeners, &mut w);
        match out {
            KeyOutcome::Forward { key: k } => assert_eq!(k, key),
            _ => panic!("expected a forward"),
        }
    }
    // the dispatcher's own state was never touched
    assert_eq!(shell.input, vec!['a', 'b']);
    assert_eq!(shell.commands.len(), 1);
    listeners.pop_listener();
    assert_eq!(listeners.key_listeners.len(), 0);
    // editing resumes from the pre-push buffer state
    let out = shell.keyboard_event('c', &mut r, &listeners, &mut w);
    assert!(matches!(out, KeyOutcome::Handled));
    assert_eq!(shell.input, vec!['a', 'b', 'c']);
}

#[test]
fn nested_listeners_pop_in_order() {
    let mut listeners: LunaListeners<u8> = LunaListeners::new();
    listeners.push_listener(1);
    listeners.push_listener(2);
    assert_eq!(*listeners.top_listener(), 2);
    listeners.pop_listener();
    assert_eq!(*listeners.top_listener(), 1);
    listeners.pop_listener();
    listeners.pop_listener(); // popping an empty stack is a no-op
    assert_eq!(listeners.key_listeners.len(), 0);
}

#[test]
fn null_key_redraws_without_consuming() {
    let mut shell: LunaShell<u32> = LunaShell::new();
    let mut r = LunaRenderer::new();
    let listeners: LunaListeners<u8> = LunaListeners::new();
    let mut w = Writer::new();
    let out = shell.keyboard_event('\u{0000}', &mut r, &listeners, &mut w);
    assert!(matches!(out, KeyOutcome::Handled));
    assert_eq!(shell.input.len(), 0);
    // the frame was committed: the prompt glyph reached the surface
    assert_eq!(w.screen, w.buffer);
}

#[test]
fn backspace_on_empty_input_only_redraws() {
    let mut shell: LunaShell<u32> = LunaShell::new();
    let mut r = LunaRenderer::new();
    let listeners: LunaListeners<u8> = LunaListeners::new();
    let mut w = Writer::new();
    let out = shell.keyboard_event('\u{0008}', &mut r, &listeners, &mut w);
    assert!(matches!(out, KeyOutcome::Handled));
    assert_eq!(shell.input.len(), 0);
    assert_eq!(r.last_input_length, 0);
}

#[test]
fn disabled_renderer_draw_is_noop() {
    let mut r = LunaRenderer::new();
    let mut w = Writer::new();
    r.write_string("x\n");
    r.set_enabled(false);
    let buffer_before = w.buffer.clone();
    r.draw(&mut w);
    assert_eq!(w.buffer, buffer_before);
    assert_eq!(r.lines.len(), 2);
    r.set_enabled(true);
    r.draw(&mut w);
    assert_eq!(w.screen, w.buffer);
}

#[test]
fn pushed_bitmap_line_is_blitted() {
    let mut r = LunaRenderer::new();
    let mut w = Writer::new();
    let bmp = Bitmap::new(2, 1, vec![5, 6]);
    r.push_bmp_line(bmp);
    r.draw(&mut w);
    assert_eq!(w.buffer[0], 5);
    assert_eq!(w.buffer[1], 6);
    // a pushed raster is already cached and is never recaptured
    assert_eq!(r.lines[0].bitmap.width, 2);
}

#[test]
fn set_color_tints_later_output() {
    let mut r = LunaRenderer::new();
    r.set_color(Color::Yellow);
    r.write_string("y");
    assert_eq!(r.lines[0].chars[0].color, Color::Yellow);
}
