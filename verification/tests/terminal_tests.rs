use graphics::terminal::{Cell, CellStyle, Color, ConsoleRenderingContext2D, TermCommand};

fn style(fg: Color, bg: Color) -> CellStyle {
    CellStyle { fg, bg }
}

#[test]
fn default_cell_is_a_blank_in_white_on_reset() {
    let c = Cell::default();
    assert_eq!(c.ch, ' ');
    assert_eq!(c.style, style(Color::White, Color::Reset));
}

#[test]
fn new_screen_is_blank() {
    let ctx = ConsoleRenderingContext2D::new(3, 2);
    assert_eq!(ctx.width(), 3);
    assert_eq!(ctx.height(), 2);
    assert!(ctx.back.iter().all(|c| *c == Cell::default()));
}

#[test]
fn put_str_writes_along_a_row_and_drops_overflow() {
    let mut ctx = ConsoleRenderingContext2D::new(4, 2);
    let st = style(Color::Red, Color::Blue);
    ctx.put_str("hello", st, 2, 1);
    assert_eq!(ctx.back[6], Cell { ch: 'h', style: st });
    assert_eq!(ctx.back[7], Cell { ch: 'e', style: st });
    for i in 0..6 {
        assert_eq!(ctx.back[i], Cell::default());
    }
}

#[test]
fn put_str_off_screen_row_changes_nothing() {
    let mut ctx = ConsoleRenderingContext2D::new(2, 1);
    ctx.put_str("ab", style(Color::Red, Color::Blue), 0, 1);
    assert!(ctx.back.iter().all(|c| *c == Cell::default()));
}

#[test]
fn present_moves_once_per_row_and_sets_colours_once() {
    let mut ctx = ConsoleRenderingContext2D::new(2, 2);
    let st = style(Color::Red, Color::Blue);
    ctx.put_str("ab", st, 0, 0);
    let cmds = ctx.present();
    assert_eq!(
        cmds,
        vec![
            TermCommand::MoveTo(0, 0),
            TermCommand::SetForeground(Color::Red),
            TermCommand::SetBackground(Color::Blue),
            TermCommand::Print('a'),
            TermCommand::Print('b'),
            TermCommand::MoveTo(0, 1),
            TermCommand::SetForeground(Color::White),
            TermCommand::SetBackground(Color::Reset),
            TermCommand::Print(' '),
            TermCommand::Print(' '),
        ]
    );
}

#[test]
fn present_changes_only_the_colour_that_differs() {
    let mut ctx = ConsoleRenderingContext2D::new(2, 1);
    ctx.put_str("a", style(Color::Red, Color::Reset), 0, 0);
    ctx.put_str("b", style(Color::Green, Color::Reset), 1, 0);
    let cmds = ctx.present();
    assert_eq!(
        cmds,
        vec![
            TermCommand::MoveTo(0, 0),
            TermCommand::SetForeground(Color::Red),
            TermCommand::SetBackground(Color::Reset),
            TermCommand::Print('a'),
            TermCommand::SetForeground(Color::Green),
            TermCommand::Print('b'),
        ]
    );
}

#[test]
fn present_of_an_empty_screen_is_empty() {
    let ctx = ConsoleRenderingContext2D::new(0, 3);
    assert!(ctx.present().is_empty());
}

#[test]
fn blit_uses_half_blocks_for_pixel_pairs() {
    let mut ctx = ConsoleRenderingContext2D::new(3, 3);
    let red = [255u8, 0, 0, 255];
    let blue = [0u8, 0, 255, 255];
    // a 2 by 4 frame buffer: two screen rows of two columns
    let fb = vec![red, red, red, blue, red, blue, blue, blue];
    ctx.blit_frame_buffer(2, 4, &fb);
    let rgb = |c: [u8; 4]| Color::Rgb { r: c[0], g: c[1], b: c[2] };
    assert_eq!(ctx.back[0], Cell { ch: '\u{2588}', style: style(rgb(red), rgb(red)) });
    assert_eq!(ctx.back[1], Cell { ch: '\u{2580}', style: style(rgb(red), rgb(blue)) });
    assert_eq!(ctx.back[3], Cell { ch: '\u{2580}', style: style(rgb(red), rgb(blue)) });
    assert_eq!(ctx.back[4], Cell { ch: '\u{2588}', style: style(rgb(blue), rgb(blue)) });
    // the third column and the third row are left alone
    assert_eq!(ctx.back[2], Cell::default());
    assert_eq!(ctx.back[6], Cell::default());
}

#[test]
fn resize_clears_the_screen() {
    let mut ctx = ConsoleRenderingContext2D::new(2, 2);
    ctx.put_str("x", style(Color::Red, Color::Blue), 0, 0);
    ctx.resize(3, 1);
    assert_eq!(ctx.width(), 3);
    assert_eq!(ctx.height(), 1);
    assert!(ctx.back.iter().all(|c| *c == Cell::default()));
}

#[test]
fn the_grid_operations_reach_the_screen() {
    let mut ctx = ConsoleRenderingContext2D::new(2, 1);
    let c = Cell { ch: '#', style: style(Color::Yellow, Color::Black) };
    ctx.fill(c);
    assert!(ctx.back.iter().all(|x| *x == c));
    ctx.clear();
    assert!(ctx.back.iter().all(|x| *x == Cell::default()));
}
