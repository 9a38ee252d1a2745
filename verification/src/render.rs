//! The mpv-to-Slint render bridge: which OpenGL state mpv disturbs, and how it is
//! put back.
//!
//! `render_gl.h` is explicit about this in *both* directions:
//!
//! > All the mpv functions mentioned above expect that the OpenGL state is
//! > reasonably set to OpenGL standard defaults. Likewise, mpv will attempt to
//! > leave the OpenGL context with standard defaults. The following state is
//! > excluded from this: the glViewport state, the glScissor state, ...
//! > glBlendFuncSeparate() state, glClearColor() state ...
//!
//! mpv renders from inside Slint's frame, where femtovg has its own program, VAO
//! and blend state bound — so the context must be reset to defaults on the way in
//! (or mpv renders incorrectly) and femtovg's state restored on the way out (or
//! the UI renders incorrectly).

use vstd::prelude::*;

verus! {

/// The first texture unit, as OpenGL numbers it.
pub const TEXTURE0: u32 = 0x84C0;

/// The smallest side of a render target, in pixels.
pub const SMALLEST_SIDE: u32 = 16;

#[derive(Debug, Clone, Copy, PartialEq, Eq, Structural)]
pub enum Capability {
    ScissorTest,
    Blend,
    DepthTest,
    CullFace,
    StencilTest,
}

/// Source and destination factors, for colour and alpha.
#[derive(Debug, Clone, Copy, PartialEq, Eq, Structural)]
pub struct BlendFactors {
    pub src_rgb: u32,
    pub dst_rgb: u32,
    pub src_alpha: u32,
    pub dst_alpha: u32,
}

#[derive(Debug, Clone, Copy, PartialEq, Eq, Structural)]
pub struct BlendEquations {
    pub rgb: u32,
    pub alpha: u32,
}

#[derive(Debug, Clone, Copy, PartialEq, Eq, Structural)]
pub struct Rect {
    pub x: i32,
    pub y: i32,
    pub width: i32,
    pub height: i32,
}

/// A colour, each part by its bits.
#[derive(Debug, Clone, Copy, PartialEq, Eq, Structural)]
pub struct Color {
    pub red: u32,
    pub green: u32,
    pub blue: u32,
    pub alpha: u32,
}

/// Snapshot of the OpenGL state that mpv disturbs. An object is its name; zero is
/// none.
#[derive(Debug, Clone, Copy, PartialEq, Eq, Structural)]
pub struct GlState {
    pub framebuffer: u32,
    pub viewport: Rect,
    pub scissor_box: Rect,
    pub scissor_test: bool,
    pub blend: bool,
    pub blend_func: BlendFactors,
    pub blend_equation: BlendEquations,
    pub clear_color: Color,
    pub program: u32,
    pub vertex_array: u32,
    pub array_buffer: u32,
    pub element_array_buffer: u32,
    pub active_texture: u32,
    pub texture_2d: u32,
    pub depth_test: bool,
    pub cull_face: bool,
    pub stencil_test: bool,
}

/// One call that changes the context.
#[derive(Debug, Clone, Copy, PartialEq, Eq, Structural)]
pub enum GlCommand {
    BindFramebuffer(u32),
    Viewport(Rect),
    Scissor(Rect),
    Switch(Capability, bool),
    BlendFunc(BlendFactors),
    BlendEquation(BlendEquations),
    ClearColor(Color),
    UseProgram(u32),
    BindVertexArray(u32),
    BindArrayBuffer(u32),
    BindElementBuffer(u32),
    ActiveTexture(u32),
    BindTexture(u32),
    ColorMask(bool),
    DepthMask(bool),
}

// ---- what the commands do -----------------------------------------------------

/// An OpenGL context, as far as the commands reach. The element buffer belongs to
/// the vertex array that is bound, and the texture to the unit that is active.
pub ghost struct Context {
    pub framebuffer: u32,
    pub viewport: Rect,
    pub scissor_box: Rect,
    pub enabled: Map<Capability, bool>,
    pub blend_func: BlendFactors,
    pub blend_equation: BlendEquations,
    pub clear_color: Color,
    pub program: u32,
    pub vertex_array: u32,
    pub array_buffer: u32,
    pub element_buffers: Map<u32, u32>,
    pub active_texture: u32,
    pub textures: Map<u32, u32>,
    pub color_mask: bool,
    pub depth_mask: bool,
}

impl Context {
    /// The context after a command.
    pub open spec fn after(self, command: GlCommand) -> Context {
        match command {
            GlCommand::BindFramebuffer(v) => Context { framebuffer: v, ..self },
            GlCommand::Viewport(v) => Context { viewport: v, ..self },
            GlCommand::Scissor(v) => Context { scissor_box: v, ..self },
            GlCommand::Switch(c, v) => Context { enabled: self.enabled.insert(c, v), ..self },
            GlCommand::BlendFunc(v) => Context { blend_func: v, ..self },
            GlCommand::BlendEquation(v) => Context { blend_equation: v, ..self },
            GlCommand::ClearColor(v) => Context { clear_color: v, ..self },
            GlCommand::UseProgram(v) => Context { program: v, ..self },
            GlCommand::BindVertexArray(v) => Context { vertex_array: v, ..self },
            GlCommand::BindArrayBuffer(v) => Context { array_buffer: v, ..self },
            GlCommand::BindElementBuffer(v) => Context {
                element_buffers: self.element_buffers.insert(self.vertex_array, v),
                ..self
            },
            GlCommand::ActiveTexture(v) => Context { active_texture: v, ..self },
            GlCommand::BindTexture(v) => Context {
                textures: self.textures.insert(self.active_texture, v),
                ..self
            },
            GlCommand::ColorMask(v) => Context { color_mask: v, ..self },
            GlCommand::DepthMask(v) => Context { depth_mask: v, ..self },
        }
    }

    /// The context after all of the commands.
    pub open spec fn after_all(self, commands: Seq<GlCommand>) -> Context
        decreases commands.len(),
    {
        if commands.len() == 0 {
            self
        } else {
            self.after_all(commands.drop_last()).after(commands.last())
        }
    }

    /// What a snapshot of the context holds.
    pub open spec fn snapshot(self) -> GlState {
        GlState {
            framebuffer: self.framebuffer,
            viewport: self.viewport,
            scissor_box: self.scissor_box,
            scissor_test: self.enabled[Capability::ScissorTest],
            blend: self.enabled[Capability::Blend],
            blend_func: self.blend_func,
            blend_equation: self.blend_equation,
            clear_color: self.clear_color,
            program: self.program,
            vertex_array: self.vertex_array,
            array_buffer: self.array_buffer,
            element_array_buffer: self.element_buffers[self.vertex_array],
            active_texture: self.active_texture,
            texture_2d: self.textures[self.active_texture],
            depth_test: self.enabled[Capability::DepthTest],
            cull_face: self.enabled[Capability::CullFace],
            stencil_test: self.enabled[Capability::StencilTest],
        }
    }
}

// ---- the commands -------------------------------------------------------------

/// The standard defaults that mpv documents that it expects.
pub open spec fn defaults() -> Seq<GlCommand> {
    seq![
        GlCommand::BindVertexArray(0),
        GlCommand::UseProgram(0),
        GlCommand::BindArrayBuffer(0),
        GlCommand::BindElementBuffer(0),
        GlCommand::ActiveTexture(TEXTURE0),
        GlCommand::BindTexture(0),
        GlCommand::Switch(Capability::ScissorTest, false),
        GlCommand::Switch(Capability::Blend, false),
        GlCommand::Switch(Capability::DepthTest, false),
        GlCommand::Switch(Capability::CullFace, false),
        GlCommand::Switch(Capability::StencilTest, false),
        GlCommand::ColorMask(true),
        GlCommand::DepthMask(true),
    ]
}

impl GlState {
    /// What puts a context into the state.
    pub open spec fn restoring(self) -> Seq<GlCommand> {
        seq![
            GlCommand::BindFramebuffer(self.framebuffer),
            GlCommand::Viewport(self.viewport),
            GlCommand::Scissor(self.scissor_box),
            GlCommand::Switch(Capability::ScissorTest, self.scissor_test),
            GlCommand::Switch(Capability::Blend, self.blend),
            GlCommand::BlendFunc(self.blend_func),
            GlCommand::BlendEquation(self.blend_equation),
            GlCommand::ClearColor(self.clear_color),
            GlCommand::UseProgram(self.program),
            GlCommand::BindVertexArray(self.vertex_array),
            GlCommand::BindArrayBuffer(self.array_buffer),
            GlCommand::BindElementBuffer(self.element_array_buffer),
            GlCommand::ActiveTexture(self.active_texture),
            GlCommand::BindTexture(self.texture_2d),
            GlCommand::Switch(Capability::DepthTest, self.depth_test),
            GlCommand::Switch(Capability::CullFace, self.cull_face),
            GlCommand::Switch(Capability::StencilTest, self.stencil_test),
        ]
    }

    /// Put the context into the standard defaults mpv documents that it expects.
    pub fn reset_to_defaults() -> (r: Vec<GlCommand>)
        ensures
            r@ == defaults(),
    {
        let mut r: Vec<GlCommand> = Vec::new();
        r.push(GlCommand::BindVertexArray(0));
        r.push(GlCommand::UseProgram(0));
        r.push(GlCommand::BindArrayBuffer(0));
        r.push(GlCommand::BindElementBuffer(0));
        r.push(GlCommand::ActiveTexture(TEXTURE0));
        r.push(GlCommand::BindTexture(0));
        r.push(GlCommand::Switch(Capability::ScissorTest, false));
        r.push(GlCommand::Switch(Capability::Blend, false));
        r.push(GlCommand::Switch(Capability::DepthTest, false));
        r.push(GlCommand::Switch(Capability::CullFace, false));
        r.push(GlCommand::Switch(Capability::StencilTest, false));
        r.push(GlCommand::ColorMask(true));
        r.push(GlCommand::DepthMask(true));
        assert(r@ =~= defaults());
        r
    }

    /// Put the context into the saved state. A vertex array comes before its
    /// element buffer, and a texture unit before its texture.
    pub fn restore(&self) -> (r: Vec<GlCommand>)
        ensures
            r@ == self.restoring(),
    {
        let mut r: Vec<GlCommand> = Vec::new();
        r.push(GlCommand::BindFramebuffer(self.framebuffer));
        r.push(GlCommand::Viewport(self.viewport));
        r.push(GlCommand::Scissor(self.scissor_box));
        r.push(GlCommand::Switch(Capability::ScissorTest, self.scissor_test));
        r.push(GlCommand::Switch(Capability::Blend, self.blend));
        r.push(GlCommand::BlendFunc(self.blend_func));
        r.push(GlCommand::BlendEquation(self.blend_equation));
        r.push(GlCommand::ClearColor(self.clear_color));
        r.push(GlCommand::UseProgram(self.program));
        r.push(GlCommand::BindVertexArray(self.vertex_array));
        r.push(GlCommand::BindArrayBuffer(self.array_buffer));
        r.push(GlCommand::BindElementBuffer(self.element_array_buffer));
        r.push(GlCommand::ActiveTexture(self.active_texture));
        r.push(GlCommand::BindTexture(self.texture_2d));
        r.push(GlCommand::Switch(Capability::DepthTest, self.depth_test));
        r.push(GlCommand::Switch(Capability::CullFace, self.cull_face));
        r.push(GlCommand::Switch(Capability::StencilTest, self.stencil_test));
        assert(r@ =~= self.restoring());
        r
    }
}

proof fn one_more(c: Context, s: Seq<GlCommand>, command: GlCommand)
    ensures
        c.after_all(s.push(command)) == c.after_all(s).after(command),
{
    assert(s.push(command).drop_last() =~= s);
}

/// Whatever mpv left behind, restoring brings back all that was saved.
pub proof fn restoring_brings_back_what_was_saved(saved: GlState, disturbed: Context)
    ensures
        disturbed.after_all(saved.restoring()).snapshot() == saved,
{
    let c = disturbed;
    let s0 = Seq::<GlCommand>::empty();
    let k1 = GlCommand::BindFramebuffer(saved.framebuffer);
    one_more(c, s0, k1);
    let s1 = s0.push(k1);
    let k2 = GlCommand::Viewport(saved.viewport);
    one_more(c, s1, k2);
    let s2 = s1.push(k2);
    let k3 = GlCommand::Scissor(saved.scissor_box);
    one_more(c, s2, k3);
    let s3 = s2.push(k3);
    let k4 = GlCommand::Switch(Capability::ScissorTest, saved.scissor_test);
    one_more(c, s3, k4);
    let s4 = s3.push(k4);
    let k5 = GlCommand::Switch(Capability::Blend, saved.blend);
    one_more(c, s4, k5);
    let s5 = s4.push(k5);
    let k6 = GlCommand::BlendFunc(saved.blend_func);
    one_more(c, s5, k6);
    let s6 = s5.push(k6);
    let k7 = GlCommand::BlendEquation(saved.blend_equation);
    one_more(c, s6, k7);
    let s7 = s6.push(k7);
    let k8 = GlCommand::ClearColor(saved.clear_color);
    one_more(c, s7, k8);
    let s8 = s7.push(k8);
    let k9 = GlCommand::UseProgram(saved.program);
    one_more(c, s8, k9);
    let s9 = s8.push(k9);
    let k10 = GlCommand::BindVertexArray(saved.vertex_array);
    one_more(c, s9, k10);
    let s10 = s9.push(k10);
    let k11 = GlCommand::BindArrayBuffer(saved.array_buffer);
    one_more(c, s10, k11);
    let s11 = s10.push(k11);
    let k12 = GlCommand::BindElementBuffer(saved.element_array_buffer);
    one_more(c, s11, k12);
    let s12 = s11.push(k12);
    let k13 = GlCommand::ActiveTexture(saved.active_texture);
    one_more(c, s12, k13);
    let s13 = s12.push(k13);
    let k14 = GlCommand::BindTexture(saved.texture_2d);
    one_more(c, s13, k14);
    let s14 = s13.push(k14);
    let k15 = GlCommand::Switch(Capability::DepthTest, saved.depth_test);
    one_more(c, s14, k15);
    let s15 = s14.push(k15);
    let k16 = GlCommand::Switch(Capability::CullFace, saved.cull_face);
    one_more(c, s15, k16);
    let s16 = s15.push(k16);
    let k17 = GlCommand::Switch(Capability::StencilTest, saved.stencil_test);
    one_more(c, s16, k17);
    let s17 = s16.push(k17);
    assert(saved.restoring() =~= s17);
}

/// After the reset nothing of the frame around it is in mpv's way: no program, no
/// vertex array, no buffer and no texture is bound, and no test is on.
pub proof fn a_reset_clears_the_way(c: Context)
    ensures
        ({
            let r = c.after_all(defaults());
            let s = r.snapshot();
            &&& s.program == 0 && s.vertex_array == 0 && s.array_buffer == 0
            &&& s.element_array_buffer == 0 && s.active_texture == TEXTURE0 && s.texture_2d == 0
            &&& !s.scissor_test && !s.blend && !s.depth_test && !s.cull_face && !s.stencil_test
            &&& r.color_mask && r.depth_mask
            &&& s.framebuffer == c.framebuffer && s.viewport == c.viewport
        }),
{
    let s0 = Seq::<GlCommand>::empty();
    let k1 = GlCommand::BindVertexArray(0);
    one_more(c, s0, k1);
    let s1 = s0.push(k1);
    let k2 = GlCommand::UseProgram(0);
    one_more(c, s1, k2);
    let s2 = s1.push(k2);
    let k3 = GlCommand::BindArrayBuffer(0);
    one_more(c, s2, k3);
    let s3 = s2.push(k3);
    let k4 = GlCommand::BindElementBuffer(0);
    one_more(c, s3, k4);
    let s4 = s3.push(k4);
    let k5 = GlCommand::ActiveTexture(TEXTURE0);
    one_more(c, s4, k5);
    let s5 = s4.push(k5);
    let k6 = GlCommand::BindTexture(0);
    one_more(c, s5, k6);
    let s6 = s5.push(k6);
    let k7 = GlCommand::Switch(Capability::ScissorTest, false);
    one_more(c, s6, k7);
    let s7 = s6.push(k7);
    let k8 = GlCommand::Switch(Capability::Blend, false);
    one_more(c, s7, k8);
    let s8 = s7.push(k8);
    let k9 = GlCommand::Switch(Capability::DepthTest, false);
    one_more(c, s8, k9);
    let s9 = s8.push(k9);
    let k10 = GlCommand::Switch(Capability::CullFace, false);
    one_more(c, s9, k10);
    let s10 = s9.push(k10);
    let k11 = GlCommand::Switch(Capability::StencilTest, false);
    one_more(c, s10, k11);
    let s11 = s10.push(k11);
    let k12 = GlCommand::ColorMask(true);
    one_more(c, s11, k12);
    let s12 = s11.push(k12);
    let k13 = GlCommand::DepthMask(true);
    one_more(c, s12, k13);
    let s13 = s12.push(k13);
    assert(defaults() =~= s13);
}

// ---- the target ---------------------------------------------------------------

pub open spec fn side(n: u32) -> u32 {
    if n < SMALLEST_SIDE {
        SMALLEST_SIDE
    } else {
        n
    }
}

/// The size to render at: what is asked for, but never nothing.
pub fn target_size(width: u32, height: u32) -> (r: (u32, u32))
    ensures
        r == (side(width), side(height)),
{
    let w: u32 = if width < SMALLEST_SIDE {
        SMALLEST_SIDE
    } else {
        width
    };
    let h: u32 = if height < SMALLEST_SIDE {
        SMALLEST_SIDE
    } else {
        height
    };
    (w, h)
}

/// Whether the target has to be made anew: there is none, or it has another size.
pub fn needs_new_target(current: Option<(u32, u32)>, width: u32, height: u32) -> (r: bool)
    ensures
        r == (current != Some((width, height))),
{
    match current {
        Some((w, h)) => w != width || h != height,
        None => true,
    }
}

/// A side is as long as it is asked for, and sixteen pixels where it is asked to be
/// shorter.
pub proof fn a_side_is_as_long_as_asked(n: u32)
    ensures
        n >= 16 ==> side(n) == n,
        n < 16 ==> side(n) == 16,
{
}

/// The reset switches everything off that mpv expects to be off, and leaves the rest of
/// the frame around it alone: the target, the viewport, the scissor box, the blending and
/// the clear colour are for mpv itself to set.
pub proof fn a_reset_leaves_the_rest_alone(c: Context)
    ensures
        ({
            let s = c.after_all(defaults()).snapshot();
            &&& s.active_texture == 0x84C0
            &&& s.framebuffer == c.framebuffer
            &&& s.viewport == c.viewport
            &&& s.scissor_box == c.scissor_box
            &&& s.blend_func == c.blend_func
            &&& s.blend_equation == c.blend_equation
            &&& s.clear_color == c.clear_color
        }),
{
    a_reset_clears_the_way(c);
    untouched(c, defaults(), 13);
}

/// Commands that bind and switch leave the boxes and colours as they are.
proof fn untouched(c: Context, s: Seq<GlCommand>, n: int)
    requires
        0 <= n <= s.len(),
        forall|i: int|
            0 <= i < s.len() ==> !(#[trigger] s[i] is Viewport) && !(s[i] is Scissor) && !(
            s[i] is BlendFunc) && !(s[i] is BlendEquation) && !(s[i] is ClearColor) && !(
            s[i] is BindFramebuffer),
    ensures
        ({
            let r = c.after_all(s.take(n)).snapshot();
            &&& r.framebuffer == c.framebuffer
            &&& r.viewport == c.viewport
            &&& r.scissor_box == c.scissor_box
            &&& r.blend_func == c.blend_func
            &&& r.blend_equation == c.blend_equation
            &&& r.clear_color == c.clear_color
        }),
        n == s.len() ==> s.take(n) == s,
    decreases n,
{
    if n > 0 {
        untouched(c, s, n - 1);
        assert(s.take(n).drop_last() =~= s.take(n - 1));
        assert(s.take(n).last() == s[n - 1]);
    }
    if n == s.len() {
        assert(s.take(n) =~= s);
    }
}

} // verus!
