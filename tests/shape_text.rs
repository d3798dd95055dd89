use ruler_compass::shape_text::{parse_shape_text, ShapeKind, TextError};

fn parse(s: &str) -> Result<(ShapeKind, String, String, String), TextError> {
    parse_shape_text(&s.as_bytes().to_vec()).map(|f| {
        (
            f.kind,
            String::from_utf8(f.first).unwrap(),
            String::from_utf8(f.second).unwrap(),
            String::from_utf8(f.third).unwrap(),
        )
    })
}

#[test]
fn parse_line_text() {
    assert_eq!(
        parse("Line(nx=0.600,ny=0.800,d=1.400)"),
        Ok((ShapeKind::Line, "0.600".to_string(), "0.800".to_string(), "1.400".to_string()))
    );
    assert_eq!(
        parse("Line(nx=0.600,ny=-0.800,d=1e-3) trailing"),
        Ok((ShapeKind::Line, "0.600".to_string(), "-0.800".to_string(), "1e-3".to_string()))
    );
}

#[test]
fn parse_circle_text() {
    assert_eq!(
        parse("Circle(c.x=0.600,c.y=0.800,r2=1.400)"),
        Ok((ShapeKind::Circle, "0.600".to_string(), "0.800".to_string(), "1.400".to_string()))
    );
}

#[test]
fn integer_coefficients_round_trip() {
    let text = format!("Line(nx={},ny={},d={})", 3, -4, 12);
    assert_eq!(
        parse(&text),
        Ok((ShapeKind::Line, "3".to_string(), "-4".to_string(), "12".to_string()))
    );
    let text = format!("Circle(c.x={},c.y={},r2={})", 0, 7, 25);
    assert_eq!(
        parse(&text),
        Ok((ShapeKind::Circle, "0".to_string(), "7".to_string(), "25".to_string()))
    );
}

#[test]
fn parse_errors() {
    assert_eq!(parse("Line"), Err(TextError::NoParenthesis));
    assert_eq!(parse("Square(a=1)"), Err(TextError::WrongHead));
    assert_eq!(parse("Ray(a=1,v=2)"), Err(TextError::Unsupported));
    assert_eq!(parse("Segment(a=1,b=2)"), Err(TextError::Unsupported));
    assert_eq!(parse("Line(nx=,ny=1,d=2)"), Err(TextError::WrongFormat));
    assert_eq!(parse("Line(nx=1,ny=1,d=2"), Err(TextError::WrongFormat));
    assert_eq!(parse("Circle(c.x=1,c.y=x,r2=2)"), Err(TextError::WrongFormat));
}
