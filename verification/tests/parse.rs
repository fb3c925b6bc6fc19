use psi_exporter::parse::{parse_psi_line, render_psi_line, ParseError, PsiLine, PsiRecord};

#[test]
fn parse_some_line() {
    let r = parse_psi_line(b"some avg10=5.00 avg60=2.00 avg300=1.00 total=500000").unwrap();
    assert_eq!(
        r,
        PsiRecord { line: PsiLine::SomeTasks, avg10: 500, avg60: 200, avg300: 100, total: 500000 }
    );
}

#[test]
fn parse_full_line_zeros() {
    let r = parse_psi_line(b"full avg10=0.00 avg60=0.00 avg300=0.00 total=0").unwrap();
    assert_eq!(
        r,
        PsiRecord { line: PsiLine::FullTasks, avg10: 0, avg60: 0, avg300: 0, total: 0 }
    );
}

#[test]
fn parse_keys_order_independent() {
    let r = parse_psi_line(b"some total=7 avg300=1.00 avg10=5.00 avg60=2.00").unwrap();
    assert_eq!(
        r,
        PsiRecord { line: PsiLine::SomeTasks, avg10: 500, avg60: 200, avg300: 100, total: 7 }
    );
}

#[test]
fn parse_rejects_unknown_kind() {
    assert_eq!(
        parse_psi_line(b"none avg10=0.00 avg60=0.00 avg300=0.00 total=0"),
        Err(ParseError)
    );
}

#[test]
fn parse_rejects_missing_key() {
    assert_eq!(parse_psi_line(b"some avg10=0.00 avg60=0.00 total=0"), Err(ParseError));
}

#[test]
fn parse_rejects_duplicate_key() {
    assert_eq!(
        parse_psi_line(b"some avg10=0.00 avg10=0.00 avg300=0.00 total=0"),
        Err(ParseError)
    );
}

#[test]
fn parse_rejects_bad_number() {
    assert_eq!(
        parse_psi_line(b"some avg10=x.00 avg60=0.00 avg300=0.00 total=0"),
        Err(ParseError)
    );
    assert_eq!(
        parse_psi_line(b"some avg10=0.00 avg60=0.00 avg300=0.00 total=12x"),
        Err(ParseError)
    );
}

#[test]
fn parse_rejects_average_above_hundred() {
    assert_eq!(
        parse_psi_line(b"some avg10=150.00 avg60=0.00 avg300=0.00 total=0"),
        Err(ParseError)
    );
}

#[test]
fn parse_rejects_empty_line() {
    assert_eq!(parse_psi_line(b""), Err(ParseError));
}

#[test]
fn parse_accepts_single_fraction_digit_and_integer() {
    let r = parse_psi_line(b"some avg10=5.5 avg60=2 avg300=0.25 total=9").unwrap();
    assert_eq!(r.avg10, 550);
    assert_eq!(r.avg60, 200);
    assert_eq!(r.avg300, 25);
}

#[test]
fn parse_total_at_u64_max() {
    let r = parse_psi_line(
        b"some avg10=0.00 avg60=0.00 avg300=0.00 total=18446744073709551615",
    )
    .unwrap();
    assert_eq!(r.total, u64::MAX);
    assert_eq!(
        parse_psi_line(b"some avg10=0.00 avg60=0.00 avg300=0.00 total=18446744073709551616"),
        Err(ParseError)
    );
}

#[test]
fn render_canonical_line() {
    let rec = PsiRecord {
        line: PsiLine::SomeTasks,
        avg10: 500,
        avg60: 200,
        avg300: 100,
        total: 500000,
    };
    let out = render_psi_line(rec);
    assert_eq!(out, b"some avg10=5.00 avg60=2.00 avg300=1.00 total=500000".to_vec());
}

#[test]
fn render_then_parse_round_trips() {
    let recs = [
        PsiRecord { line: PsiLine::SomeTasks, avg10: 500, avg60: 200, avg300: 100, total: 500000 },
        PsiRecord { line: PsiLine::FullTasks, avg10: 0, avg60: 0, avg300: 0, total: 0 },
        PsiRecord { line: PsiLine::SomeTasks, avg10: 10000, avg60: 9999, avg300: 1, total: u64::MAX },
    ];
    for rec in recs {
        let out = render_psi_line(rec);
        assert_eq!(parse_psi_line(out.as_slice()), Ok(rec));
    }
}

#[test]
fn parse_then_render_keeps_values() {
    let line = b"full avg10=12.30 avg60=4.56 avg300=0.07 total=123456789";
    let rec = parse_psi_line(line).unwrap();
    let out = render_psi_line(rec);
    let back = parse_psi_line(out.as_slice()).unwrap();
    assert_eq!(rec, back);
}
