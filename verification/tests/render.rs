use clipcut::render::{
    needs_new_target, target_size, BlendEquations, BlendFactors, Capability, Color, GlCommand,
    GlState, Rect, TEXTURE0,
};

fn state() -> GlState {
    GlState {
        framebuffer: 3,
        viewport: Rect { x: 1, y: 2, width: 640, height: 480 },
        scissor_box: Rect { x: 5, y: 6, width: 7, height: 8 },
        scissor_test: true,
        blend: true,
        blend_func: BlendFactors { src_rgb: 1, dst_rgb: 771, src_alpha: 1, dst_alpha: 771 },
        blend_equation: BlendEquations { rgb: 32774, alpha: 32774 },
        clear_color: Color { red: 0, green: 1, blue: 2, alpha: 3 },
        program: 9,
        vertex_array: 4,
        array_buffer: 11,
        element_array_buffer: 12,
        active_texture: TEXTURE0 + 1,
        texture_2d: 13,
        depth_test: false,
        cull_face: true,
        stencil_test: true,
    }
}

#[test]
fn a_reset_unbinds_and_disables() {
    let all = GlState::reset_to_defaults();
    assert!(all.contains(&GlCommand::UseProgram(0)));
    assert!(all.contains(&GlCommand::BindTexture(0)));
    assert!(all.contains(&GlCommand::Switch(Capability::Blend, false)));
    assert!(all.contains(&GlCommand::ColorMask(true)));
    assert!(all.contains(&GlCommand::DepthMask(true)));
    assert!(!all.iter().any(|c| matches!(c, GlCommand::Switch(_, true))));
    assert_eq!(all.len(), 13);
}

#[test]
fn restoring_names_everything_that_was_saved() {
    let s = state();
    let all = s.restore();
    assert_eq!(all[0], GlCommand::BindFramebuffer(3));
    assert!(all.contains(&GlCommand::Viewport(s.viewport)));
    assert!(all.contains(&GlCommand::Scissor(s.scissor_box)));
    assert!(all.contains(&GlCommand::BlendFunc(s.blend_func)));
    assert!(all.contains(&GlCommand::BlendEquation(s.blend_equation)));
    assert!(all.contains(&GlCommand::ClearColor(s.clear_color)));
    assert!(all.contains(&GlCommand::UseProgram(9)));
    assert!(all.contains(&GlCommand::BindArrayBuffer(11)));
    assert!(all.contains(&GlCommand::Switch(Capability::DepthTest, false)));
    assert!(all.contains(&GlCommand::Switch(Capability::CullFace, true)));
    assert_eq!(all.len(), 17);
}

#[test]
fn what_belongs_to_an_object_is_bound_after_it() {
    let all = state().restore();
    let at = |c: GlCommand| all.iter().position(|x| *x == c).unwrap();
    assert!(at(GlCommand::BindVertexArray(4)) < at(GlCommand::BindElementBuffer(12)));
    assert!(at(GlCommand::ActiveTexture(TEXTURE0 + 1)) < at(GlCommand::BindTexture(13)));
}

#[test]
fn targets_are_made_when_the_size_changes() {
    assert!(needs_new_target(None, 640, 480));
    assert!(!needs_new_target(Some((640, 480)), 640, 480));
    assert!(needs_new_target(Some((640, 480)), 641, 480));
    assert!(needs_new_target(Some((640, 480)), 640, 479));
    assert_eq!(target_size(0, 15), (16, 16));
    assert_eq!(target_size(16, 1080), (16, 1080));
}

/// A context, as far as the commands reach.
#[derive(Clone)]
struct Context {
    state: GlState,
    element_buffers: Vec<(u32, u32)>,
    textures: Vec<(u32, u32)>,
}

fn bound(all: &[(u32, u32)], object: u32) -> u32 {
    all.iter().rev().find(|(o, _)| *o == object).map(|(_, v)| *v).unwrap_or(0)
}

impl Context {
    fn run(&mut self, commands: &[GlCommand]) {
        for c in commands {
            let s = &mut self.state;
            match *c {
                GlCommand::BindFramebuffer(v) => s.framebuffer = v,
                GlCommand::Viewport(v) => s.viewport = v,
                GlCommand::Scissor(v) => s.scissor_box = v,
                GlCommand::Switch(Capability::ScissorTest, v) => s.scissor_test = v,
                GlCommand::Switch(Capability::Blend, v) => s.blend = v,
                GlCommand::Switch(Capability::DepthTest, v) => s.depth_test = v,
                GlCommand::Switch(Capability::CullFace, v) => s.cull_face = v,
                GlCommand::Switch(Capability::StencilTest, v) => s.stencil_test = v,
                GlCommand::BlendFunc(v) => s.blend_func = v,
                GlCommand::BlendEquation(v) => s.blend_equation = v,
                GlCommand::ClearColor(v) => s.clear_color = v,
                GlCommand::UseProgram(v) => s.program = v,
                GlCommand::BindVertexArray(v) => s.vertex_array = v,
                GlCommand::BindArrayBuffer(v) => s.array_buffer = v,
                GlCommand::BindElementBuffer(v) => self.element_buffers.push((s.vertex_array, v)),
                GlCommand::ActiveTexture(v) => s.active_texture = v,
                GlCommand::BindTexture(v) => self.textures.push((s.active_texture, v)),
                GlCommand::ColorMask(_) | GlCommand::DepthMask(_) => {}
            }
        }
    }

    fn snapshot(&self) -> GlState {
        GlState {
            element_array_buffer: bound(&self.element_buffers, self.state.vertex_array),
            texture_2d: bound(&self.textures, self.state.active_texture),
            ..self.state
        }
    }
}

#[test]
fn a_frame_leaves_the_state_as_it_was() {
    let saved = state();
    let mut context = Context {
        state: saved,
        element_buffers: vec![(4, 12), (0, 99)],
        textures: vec![(TEXTURE0, 42), (TEXTURE0 + 1, 13)],
    };
    assert_eq!(context.snapshot(), saved);
    context.run(&GlState::reset_to_defaults());
    let reset = context.snapshot();
    assert_eq!((reset.program, reset.vertex_array, reset.element_array_buffer), (0, 0, 0));
    assert_eq!((reset.active_texture, reset.texture_2d), (TEXTURE0, 0));
    assert!(!reset.blend && !reset.scissor_test && !reset.cull_face && !reset.stencil_test);
    assert_eq!(reset.framebuffer, saved.framebuffer);
    context.run(&saved.restore());
    assert_eq!(context.snapshot(), saved);
}
