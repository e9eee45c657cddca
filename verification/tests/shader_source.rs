use wezterm_core::shader_source::{shader_source, source_from_text, ShaderSourceError};

#[test]
fn byte_order_marks_are_dropped() {
    let bytes = "\u{feff}\u{feff}void main() {}".as_bytes();
    assert_eq!(shader_source(bytes), Ok("void main() {}".to_string()));
}

#[test]
fn invalid_utf8_is_refused() {
    assert_eq!(shader_source(&[0x66, 0xff, 0x66]), Err(ShaderSourceError::InvalidUtf8));
    assert_eq!(source_from_text(None), Err(ShaderSourceError::InvalidUtf8));
}

#[test]
fn blank_source_is_refused() {
    assert_eq!(shader_source("\u{feff}  \n\t ".as_bytes()), Err(ShaderSourceError::EmptyShader));
    assert_eq!(shader_source(b""), Err(ShaderSourceError::EmptyShader));
    assert_eq!(source_from_text(Some(" x ")), Ok(" x ".to_string()));
}
