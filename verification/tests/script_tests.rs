use dwrender::canvas::TraceCanvas;
use dwrender::fx::{cos_milli, fx_div, fx_mul, round_px, sin_milli, tdiv64};
use dwrender::geom::{GeometryMatrix, Point, TransformMatrix};
use dwrender::script::{parse_fx, Cmd, DWScript, LocatedCmd, OutputAction, ScriptError};
use dwrender::stack::MStack;
use dwrender::transform;
use dwrender::vector::Vec3;

fn chars(s: &str) -> Vec<char> {
    s.chars().collect()
}

fn run_script(text: &str) -> (DWScript<TraceCanvas>, Result<(), ScriptError>) {
    let mut dw = DWScript::new(TraceCanvas::new(500, 500));
    let r = dw.do_parse(&chars(text));
    (dw, r)
}

#[test]
fn script() {
    let text = "# a small scene\n\
                push\n\
                move\n\
                10 10 0\n\
                line\n\
                0 0 0 50 20 0\n\
                circle\n\
                100 100 0 30\n\
                box\n\
                0 0 0 10 10 10\n\
                pop\n\
                display\n";
    let (dw, r) = run_script(text);
    assert!(r.is_ok());
    assert_eq!(dw.stack.len(), 1);
    assert_eq!(dw.outputs.len(), 1);
}

#[test]
fn parses_decimal_literals_exactly() {
    assert_eq!(parse_fx(&chars("12.345")), Some(12_345));
    assert_eq!(parse_fx(&chars("-0.5")), Some(-500));
    assert_eq!(parse_fx(&chars("10.")), Some(10_000));
    assert_eq!(parse_fx(&chars(".5")), Some(500));
    assert_eq!(parse_fx(&chars("0")), Some(0));
    assert_eq!(parse_fx(&chars("1000000")), Some(1_000_000_000));
    // truncation past the third fraction digit
    assert_eq!(parse_fx(&chars("0.0005")), Some(0));
    assert_eq!(parse_fx(&chars("1.23456")), Some(1_234));
    // not literals, or out of the fixed-point range
    assert_eq!(parse_fx(&chars("")), None);
    assert_eq!(parse_fx(&chars("-")), None);
    assert_eq!(parse_fx(&chars(".")), None);
    assert_eq!(parse_fx(&chars("1e5")), None);
    assert_eq!(parse_fx(&chars("1.2.3")), None);
    assert_eq!(parse_fx(&chars("2000000")), None);
    assert_eq!(parse_fx(&chars("1000000.5")), None);
}

#[test]
fn trig_hits_exact_milestones() {
    assert_eq!(sin_milli(0), 0);
    assert_eq!(sin_milli(90_000), 1000);
    assert_eq!(sin_milli(30_000), 500);
    assert_eq!(sin_milli(-90_000), -1000);
    assert_eq!(cos_milli(0), 1000);
    assert_eq!(cos_milli(180_000), -1000);
}

#[test]
fn fixed_point_arithmetic_rounds_as_documented() {
    assert_eq!(round_px(1_500), 2);
    assert_eq!(round_px(-1_500), -2);
    assert_eq!(round_px(1_499), 1);
    assert_eq!(fx_mul(1_500, 500), 750);
    assert_eq!(fx_mul(-1_500, 500), -750);
    assert_eq!(fx_div(1_000, 3_000), 333);
    assert_eq!(tdiv64(-7, 2), -3);
}

#[test]
fn vector_products_are_exact() {
    let a = Vec3(1_000, 2_000, 3_000);
    let b = Vec3(4_000, 5_000, 6_000);
    assert_eq!(a.dot(b), 32_000);
    let c = Vec3(1_000, 0, 0).cross(Vec3(0, 1_000, 0));
    assert_eq!((c.0, c.1, c.2), (0, 0, 1_000));
}

#[test]
fn push_then_pop_restores_the_stack_top() {
    let mut stack: Vec<TransformMatrix> = Vec::<TransformMatrix>::new_stack();
    stack.transform_top(&transform::mv(5_000, -2_000, 1_000));
    let before: Vec<i64> = (0..16).map(|i| stack.get_top().entry(i / 4, i % 4)).collect();
    let depth = stack.len();

    stack.push_matrix();
    stack.transform_top(&transform::scale(2_000, 2_000, 2_000));
    stack.pop_matrix();

    let after: Vec<i64> = (0..16).map(|i| stack.get_top().entry(i / 4, i % 4)).collect();
    assert_eq!(before, after);
    assert_eq!(stack.len(), depth);
}

#[test]
fn pop_never_removes_the_identity_frame() {
    let mut stack: Vec<TransformMatrix> = Vec::<TransformMatrix>::new_stack();
    stack.pop_matrix();
    stack.pop_matrix();
    assert_eq!(stack.len(), 1);
    assert_eq!(stack.get_top().entry(0, 0), 1_000);
}

#[test]
fn transform_constructors_have_expected_entries() {
    let t = transform::mv(7_000, 8_000, 9_000);
    assert_eq!(t.entry(0, 3), 7_000);
    assert_eq!(t.entry(1, 3), 8_000);
    assert_eq!(t.entry(2, 3), 9_000);
    assert_eq!(t.entry(0, 0), 1_000);

    let s = transform::scale(2_000, 3_000, 4_000);
    assert_eq!(s.entry(0, 0), 2_000);
    assert_eq!(s.entry(1, 1), 3_000);
    assert_eq!(s.entry(2, 2), 4_000);

    let r = transform::rotatez(90_000);
    assert_eq!(r.entry(0, 0), 0);
    assert_eq!(r.entry(0, 1), -1_000);
    assert_eq!(r.entry(1, 0), 1_000);
    assert_eq!(r.entry(2, 2), 1_000);
}

#[test]
fn box_corners_are_the_eight_cube_corners() {
    let mut m = GeometryMatrix::new_polygon_matrix();
    m.add_box(0, 0, 0, 10_000, 10_000, 10_000);
    assert_eq!(m.len(), 36);
    let mut corners: Vec<(i64, i64, i64)> = m.pts.iter().map(|p| (p.x, p.y, p.z)).collect();
    corners.sort();
    corners.dedup();
    let mut expected: Vec<(i64, i64, i64)> = Vec::new();
    for &x in &[0, 10_000] {
        for &y in &[0, -10_000] {
            for &z in &[0, -10_000] {
                expected.push((x, y, z));
            }
        }
    }
    expected.sort();
    assert_eq!(corners, expected);
}

#[test]
fn sphere_points_stay_within_radius() {
    let mut m = GeometryMatrix::new_polygon_matrix();
    m.add_sphere(100_000, 0, 0, 5_000);
    assert_eq!(m.len() % 3, 0);
    for p in m.pts.iter() {
        assert!((p.x - 100_000).abs() <= 5_000);
        assert!(p.y.abs() <= 5_000);
        assert!(p.z.abs() <= 5_000);
    }
}

#[test]
fn script_box_renders_the_unit_cube_in_place() {
    let (dw, r) = run_script("box\n0 0 0 10 10 10\n");
    assert!(r.is_ok());
    let evs = dw.img.recorded();
    assert!(!evs.is_empty());
    // no prior transform: everything stays by the origin, within the cube's
    // front face extended by rounding
    for e in evs.iter() {
        assert!(-1 <= e.x && e.x <= 11, "x out of cube: {}", e.x);
        assert!(-11 <= e.y && e.y <= 1, "y out of cube: {}", e.y);
    }
}

#[test]
fn script_move_then_sphere_renders_around_the_new_center() {
    let (dw, r) = run_script("move\n100 0 0\nsphere\n0 0 0 5\n");
    assert!(r.is_ok());
    let evs = dw.img.recorded();
    assert!(!evs.is_empty());
    let mut near_center = false;
    for e in evs.iter() {
        // every pixel falls by the moved center, not by the origin
        assert!((e.x - 100).abs() <= 18, "x far from moved center: {}", e.x);
        assert!(e.y.abs() <= 7, "y far from moved center: {}", e.y);
        if (e.x - 100).abs() <= 6 && e.y.abs() <= 6 {
            near_center = true;
        }
    }
    assert!(near_center);
}

#[test]
fn script_line_draws_eleven_pixels_at_constant_depth() {
    let (dw, r) = run_script("line\n0 0 0 10 0 0\n");
    assert!(r.is_ok());
    let evs = dw.img.recorded();
    assert_eq!(evs.len(), 11);
    for (i, e) in evs.iter().enumerate() {
        assert_eq!((e.x, e.y), (i as i64, 0));
        assert_eq!(e.z, 0);
    }
}

#[test]
fn comments_and_blank_lines_are_ignored() {
    let (_, r) = run_script("# comment\n\n\\ another\nline\n0 0 0 10 0 0\n");
    assert!(r.is_ok());
}

#[test]
fn unknown_command_reports_its_line() {
    let (_, r) = run_script("line\n0 0 0 10 0 0\nwobble\n");
    assert_eq!(r, Err(ScriptError::UnknownCommand { line: 2 }));
}

#[test]
fn missing_data_line_is_fatal() {
    let (_, r) = run_script("line\n");
    assert_eq!(r, Err(ScriptError::MissingDataLine { line: 1 }));
}

#[test]
fn bad_number_is_fatal() {
    let (_, r) = run_script("line\n0 0 zero 10 0 0\n");
    assert_eq!(r, Err(ScriptError::BadNumber { line: 1 }));
}

#[test]
fn wrong_field_count_is_fatal() {
    let (_, r) = run_script("line\n0 0 0 10 0\n");
    assert_eq!(r, Err(ScriptError::WrongFieldCount { line: 1 }));
}

#[test]
fn unknown_rotation_axis_is_fatal() {
    let (_, r) = run_script("rotate\nw 45\n");
    assert_eq!(r, Err(ScriptError::UnknownAxis { line: 1 }));
}

#[test]
fn runaway_scaling_overflows_fatally() {
    let (_, r) = run_script(
        "scale\n1000000 1000000 1000000\nscale\n1000000 1000000 1000000\nscale\n1000000 1000000 1000000\n",
    );
    assert_eq!(r, Err(ScriptError::Overflow { line: 4 }));
}

#[test]
fn save_records_an_output_action_with_its_position() {
    let (dw, r) = run_script("line\n0 0 0 10 0 0\nsave\nframe.png\n");
    assert!(r.is_ok());
    assert_eq!(dw.outputs.len(), 1);
    match &dw.outputs[0] {
        OutputAction::Save { name, upto } => {
            assert_eq!(name.iter().collect::<String>(), "frame.png");
            assert_eq!(*upto, 11);
        }
        _ => panic!("expected a save action"),
    }
}

#[test]
fn rotation_carries_a_line_through_the_stack() {
    // rotate 90 degrees about z, then draw along +x: pixels land along +y
    let (dw, r) = run_script("rotate\nz 90\nline\n0 0 0 10 0 0\n");
    assert!(r.is_ok());
    let evs = dw.img.recorded();
    assert_eq!(evs.len(), 11);
    for (i, e) in evs.iter().enumerate() {
        assert_eq!((e.x, e.y), (0, i as i64));
    }
}

#[test]
fn hermite_and_bezier_draw_curve_chords() {
    let (dw, r) = run_script("hermite\n0 0 10 10 1 0 1 0\n");
    assert!(r.is_ok());
    assert!(!dw.img.recorded().is_empty());

    let (dw2, r2) = run_script("bezier\n0 0 5 10 15 10 20 0\n");
    assert!(r2.is_ok());
    let evs = dw2.img.recorded();
    assert!(!evs.is_empty());
    // the curve stays within its control hull, up to rounding
    for e in evs.iter() {
        assert!(-1 <= e.x && e.x <= 21);
        assert!(-1 <= e.y && e.y <= 11);
    }
}

#[test]
fn executing_parsed_commands_matches_running_the_text() {
    let text = "push\nmove\n10 0 0\nline\n0 0 0 10 0 0\npop\n";
    let (dw_text, r1) = run_script(text);
    assert!(r1.is_ok());

    let cmds = vec![
        LocatedCmd { line: 0, cmd: Cmd::Push },
        LocatedCmd { line: 1, cmd: Cmd::Move { x: 10_000, y: 0, z: 0 } },
        LocatedCmd {
            line: 3,
            cmd: Cmd::Line {
                a: Point { x: 0, y: 0, z: 0 },
                b: Point { x: 10_000, y: 0, z: 0 },
            },
        },
        LocatedCmd { line: 5, cmd: Cmd::Pop },
    ];
    let mut dw_cmds = DWScript::new(TraceCanvas::new(500, 500));
    assert!(dw_cmds.exec_cmds(&cmds).is_ok());

    assert_eq!(dw_text.img.recorded(), dw_cmds.img.recorded());
    // the translated line lands at x in 10..=20 on row 0
    for (i, e) in dw_cmds.img.recorded().iter().enumerate() {
        assert_eq!((e.x, e.y, e.z), (10 + i as i64, 0, 0));
    }
}

#[test]
fn doubled_or_trailing_spaces_make_extra_empty_fields() {
    // "0 0  0 10 0 0" splits at every single space: seven fields, one empty
    let (_, r) = run_script("line\n0 0  0 10 0 0\n");
    assert_eq!(r, Err(ScriptError::WrongFieldCount { line: 1 }));

    // trailing blanks are trimmed from the line before it is split
    let (_, r2) = run_script("line\n0 0 0 10 0 0 \n");
    assert!(r2.is_ok());
}
