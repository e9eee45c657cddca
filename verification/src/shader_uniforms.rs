//! The uniform block that post-processing shaders see, written out as
//! GLSL from the reflected field list, and put into a shader prefix.
use vstd::prelude::*;
use crate::text::{chars_of, replace, replace_exec, string_of};

verus! {

/// The shader type a uniform field maps to.
#[derive(Debug, Clone, Copy, PartialEq, Eq, Structural)]
pub enum UniformType {
    Vec2,
    Float,
    UInt,
    Vec4,
}

/// A single field of a shader uniform buffer.
#[derive(Debug, Clone, Copy)]
pub struct UniformField {
    pub name: &'static str,
    pub ty: UniformType,
}

/// The GLSL name of a uniform type.
pub open spec fn glsl_type_name(ty: UniformType) -> Seq<char> {
    match ty {
        UniformType::Vec2 => "vec2"@,
        UniformType::Float => "float"@,
        UniformType::UInt => "uint"@,
        UniformType::Vec4 => "vec4"@,
    }
}

/// The GLSL name of a uniform type.
pub fn uniform_type_glsl(ty: UniformType) -> (r: &'static str)
    ensures
        r@ == glsl_type_name(ty),
{
    match ty {
        UniformType::Vec2 => "vec2",
        UniformType::Float => "float",
        UniformType::UInt => "uint",
        UniformType::Vec4 => "vec4",
    }
}

/// The first line of the uniform block.
pub open spec fn uniform_block_head() -> Seq<char> {
    "layout(set = 1, binding = 0, std140) uniform PostProcessUniform {\n"@
}

/// The declaration line of one field.
pub open spec fn uniform_field_line(f: UniformField) -> Seq<char> {
    "    "@ + glsl_type_name(f.ty) + " "@ + f.name@ + ";\n"@
}

/// The declaration lines of the fields, in order.
pub open spec fn uniform_field_lines(fs: Seq<UniformField>) -> Seq<char>
    decreases fs.len(),
{
    if fs.len() == 0 {
        seq![]
    } else {
        uniform_field_lines(fs.drop_last()) + uniform_field_line(fs.last())
    }
}

/// The GLSL uniform block declaring the fields, in order.
pub open spec fn uniform_block(fs: Seq<UniformField>) -> Seq<char> {
    uniform_block_head() + uniform_field_lines(fs) + "};\n"@
}

/// Render the uniform block GLSL declaration from the reflected field
/// list.
pub fn render_glsl_uniform_block(fields: &[UniformField]) -> (r: String)
    ensures
        r@ == uniform_block(fields@),
{
    let mut out = chars_of("layout(set = 1, binding = 0, std140) uniform PostProcessUniform {\n");
    let mut i: usize = 0;
    while i < fields.len()
        invariant
            i <= fields@.len(),
            out@ == uniform_block_head() + uniform_field_lines(fields@.take(i as int)),
        decreases fields.len() - i,
    {
        let field = fields[i];
        let ghost before = out@;
        crate::text::append_str(&mut out, "    ");
        crate::text::append_str(&mut out, uniform_type_glsl(field.ty));
        crate::text::append_str(&mut out, " ");
        crate::text::append_str(&mut out, field.name);
        crate::text::append_str(&mut out, ";\n");
        proof {
            assert(fields@.take(i + 1).drop_last() == fields@.take(i as int));
            assert(fields@.take(i + 1).last() == field);
            assert(out@ =~= before + uniform_field_line(field));
        }
        i = i + 1;
    }
    assert(fields@.take(i as int) == fields@);
    crate::text::append_str(&mut out, "};\n");
    string_of(&out)
}

/// The placeholder of a shader prefix template that the uniform block
/// replaces.
pub open spec fn uniform_block_placeholder() -> Seq<char> {
    "{{UNIFORM_BLOCK}}"@
}

/// The shader prefix: the template with each placeholder replaced by the
/// uniform block of the fields.
pub fn ghostty_prefix(template: &str, fields: &[UniformField]) -> (r: String)
    ensures
        r@ == replace(template@, uniform_block_placeholder(), uniform_block(fields@)),
{
    proof {
        reveal_strlit("{{UNIFORM_BLOCK}}");
    }
    let block = render_glsl_uniform_block(fields);
    let out = replace_exec(&chars_of(template), &chars_of("{{UNIFORM_BLOCK}}"), &chars_of(block.as_str()));
    string_of(&out)
}

} // verus!
