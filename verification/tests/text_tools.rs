use wezterm_core::shader_uniforms::{
    ghostty_prefix, render_glsl_uniform_block, uniform_type_glsl, UniformField, UniformType,
};
use wezterm_core::wide_text::wide;

#[test]
fn glsl_type_names() {
    assert_eq!(uniform_type_glsl(UniformType::Vec2), "vec2");
    assert_eq!(uniform_type_glsl(UniformType::Float), "float");
    assert_eq!(uniform_type_glsl(UniformType::UInt), "uint");
    assert_eq!(uniform_type_glsl(UniformType::Vec4), "vec4");
}

#[test]
fn uniform_block_lists_fields_in_order() {
    let fields = [
        UniformField { name: "resolution", ty: UniformType::Vec2 },
        UniformField { name: "time", ty: UniformType::Float },
        UniformField { name: "frame", ty: UniformType::UInt },
    ];
    assert_eq!(
        render_glsl_uniform_block(&fields),
        "layout(set = 1, binding = 0, std140) uniform PostProcessUniform {\n    vec2 resolution;\n    float time;\n    uint frame;\n};\n"
    );
    assert_eq!(
        render_glsl_uniform_block(&[]),
        "layout(set = 1, binding = 0, std140) uniform PostProcessUniform {\n};\n"
    );
}

#[test]
fn prefix_gets_the_block_in_place_of_the_placeholder() {
    let fields = [UniformField { name: "cursor", ty: UniformType::Vec4 }];
    let block = render_glsl_uniform_block(&fields);
    let out = ghostty_prefix("#version 450\n{{UNIFORM_BLOCK}}\nvoid main() {}\n", &fields);
    assert_eq!(out, format!("#version 450\n{}\nvoid main() {{}}\n", block));
    assert_eq!(ghostty_prefix("no placeholder", &fields), "no placeholder");
}

#[test]
fn wide_is_utf16_with_a_nul() {
    assert_eq!(wide(""), vec![0u16]);
    assert_eq!(wide("Consolas"), "Consolas".encode_utf16().chain([0]).collect::<Vec<u16>>());
    assert_eq!(wide("é"), vec![0xe9, 0]);
    // U+1F600 takes a surrogate pair.
    assert_eq!(wide("😀"), vec![0xD83D, 0xDE00, 0]);
    let s = "a\u{10FFFF}日";
    assert_eq!(wide(s), s.encode_utf16().chain([0]).collect::<Vec<u16>>());
}
