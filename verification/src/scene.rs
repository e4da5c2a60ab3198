//! Filtering a recorded scene.

use crate::color::Color;
use crate::color_matrix::ColorMatrixChain;
use crate::image::ImageBrush;
use crate::ramp::Gradient;
use vstd::prelude::*;

verus! {

/// What a command paints with.
pub enum Paint {
    Solid(Color),
    Gradient(Gradient),
    Image(ImageBrush),
    /// A paint whose pixels cannot be seen from here.
    Other,
}

/// A drawing command, as far as it carries colour.
pub enum SceneCommand {
    Fill(Paint),
    Stroke(Paint),
    GlyphRun(Paint),
    BoxShadow(Color),
    PushLayer,
    PushClipLayer,
    PopLayer,
}

impl ColorMatrixChain {
    /// Whether a paint can be filtered: the alphas of a gradient bound its channels.
    pub open spec fn accepts_paint(&self, paint: Paint) -> bool {
        match paint {
            Paint::Gradient(gradient) => self.accepts_gradient(gradient),
            _ => true,
        }
    }

    /// Whether a paint is what the chain makes of another.
    pub open spec fn is_filtered_paint(&self, before: Paint, after: Paint) -> bool {
        match before {
            Paint::Solid(color) => after == Paint::Solid(self.apply(color)),
            Paint::Gradient(gradient) => match after {
                Paint::Gradient(made) => {
                    &&& made.ramp() == self.filtered_ramp(gradient)
                    &&& made.premultiplied == gradient.premultiplied
                    &&& made.srgb == gradient.srgb
                },
                _ => false,
            },
            Paint::Image(brush) => match after {
                Paint::Image(made) => {
                    &&& made.data@ == self.filtered_image(brush)
                    &&& made.format == brush.format
                    &&& made.premultiplied == brush.premultiplied
                },
                _ => false,
            },
            Paint::Other => after == before,
        }
    }

    /// Rewrites what a command paints with. A paint that cannot be seen is left alone.
    pub fn apply_to_paint(&self, paint: &mut Paint)
        requires
            self.accepts_paint(*old(paint)),
        ensures
            self.is_filtered_paint(*old(paint), *final(paint)),
    {
        match paint {
            Paint::Solid(color) => {
                *color = self.apply(*color);
            },
            Paint::Gradient(gradient) => {
                self.apply_to_gradient(gradient);
            },
            Paint::Image(brush) => {
                self.apply_to_image(brush);
            },
            Paint::Other => {},
        }
    }

    /// Whether the paint of a command can be filtered.
    pub open spec fn accepts_command(&self, command: SceneCommand) -> bool {
        match command {
            SceneCommand::Fill(paint) => self.accepts_paint(paint),
            SceneCommand::Stroke(paint) => self.accepts_paint(paint),
            SceneCommand::GlyphRun(paint) => self.accepts_paint(paint),
            _ => true,
        }
    }

    /// Whether a command is what the chain makes of another. A layer carries no colour of its
    /// own: its blend mode, group alpha and clip are all in the domain of alpha.
    pub open spec fn is_filtered_command(
        &self,
        before: SceneCommand,
        after: SceneCommand,
    ) -> bool {
        match (before, after) {
            (SceneCommand::Fill(a), SceneCommand::Fill(b)) => self.is_filtered_paint(a, b),
            (SceneCommand::Stroke(a), SceneCommand::Stroke(b)) => self.is_filtered_paint(a, b),
            (SceneCommand::GlyphRun(a), SceneCommand::GlyphRun(b)) => self.is_filtered_paint(a, b),
            (SceneCommand::BoxShadow(a), SceneCommand::BoxShadow(b)) => b == self.apply(a),
            (SceneCommand::PushLayer, SceneCommand::PushLayer) => true,
            (SceneCommand::PushClipLayer, SceneCommand::PushClipLayer) => true,
            (SceneCommand::PopLayer, SceneCommand::PopLayer) => true,
            _ => false,
        }
    }

    /// Rewrites the colours of a command.
    fn apply_to_command(&self, command: &mut SceneCommand)
        requires
            self.accepts_command(*old(command)),
        ensures
            self.is_filtered_command(*old(command), *final(command)),
    {
        match command {
            SceneCommand::Fill(paint) => {
                self.apply_to_paint(paint);
            },
            SceneCommand::Stroke(paint) => {
                self.apply_to_paint(paint);
            },
            SceneCommand::GlyphRun(paint) => {
                self.apply_to_paint(paint);
            },
            SceneCommand::BoxShadow(color) => {
                *color = self.apply(*color);
            },
            SceneCommand::PushLayer => {},
            SceneCommand::PushClipLayer => {},
            SceneCommand::PopLayer => {},
        }
    }

    /// Rewrites every colour that a recorded scene paints. The recording is the group that a
    /// filter applies to as a whole. A chain that changes no colour leaves it as it is.
    pub fn apply_to_scene(&self, commands: &mut Vec<SceneCommand>)
        requires
            !self.only_identities() ==> forall|i: int|
                0 <= i < old(commands)@.len() ==> self.accepts_command(
                    #[trigger] old(commands)@[i],
                ),
        ensures
            self.only_identities() ==> final(commands)@ == old(commands)@,
            !self.only_identities() ==> {
                &&& final(commands)@.len() == old(commands)@.len()
                &&& forall|i: int|
                    0 <= i < old(commands)@.len() ==> self.is_filtered_command(
                        #[trigger] old(commands)@[i],
                        final(commands)@[i],
                    )
            },
    {
        if self.is_identity() {
            return;
        }
        let ghost before = commands@;
        let mut i: usize = 0;
        while i < commands.len()
            invariant
                i <= commands@.len(),
                before == old(commands)@,
                commands@.len() == before.len(),
                forall|k: int|
                    0 <= k < before.len() ==> self.accepts_command(#[trigger] before[k]),
                forall|k: int|
                    0 <= k < i ==> self.is_filtered_command(#[trigger] before[k], commands@[k]),
                forall|k: int| i <= k < before.len() ==> commands@[k] == #[trigger] before[k],
            decreases commands@.len() - i,
        {
            assert(self.accepts_command(before[i as int]));
            self.apply_to_command(&mut commands[i]);
            i = i + 1;
        }
    }
}

} // verus!
