//! User-interface configuration: the defaults the application starts from.

use vstd::prelude::*;

verus! {

/// The default user-interface scale, in percent.
pub const DEFAULT_UI_SCALE: u16 = 100;

/// The name of the default color theme.
pub const DEFAULT_THEME: &'static str = "default";

/// Where the input bar sits in the layout.
#[derive(Clone, Copy, Debug, PartialEq, Eq, Hash, Structural)]
pub enum InputPosition {
    Top,
    Bottom,
}

/// Where the preview panel's title sits.
#[derive(Clone, Copy, Debug, PartialEq, Eq, Hash, Structural)]
pub enum PreviewTitlePosition {
    Top,
    Bottom,
}

/// The user-interface configuration.
#[derive(Clone, Debug, PartialEq, Hash)]
pub struct UiConfig {
    pub use_nerd_font_icons: bool,
    pub ui_scale: u16,
    pub show_help_bar: bool,
    pub show_preview_panel: bool,
    pub input_bar_position: InputPosition,
    pub preview_title_position: Option<PreviewTitlePosition>,
    pub theme: String,
}

impl Default for UiConfig {
    /// The defaults: plain icons, full scale, no help bar, a visible
    /// preview panel, the input bar on top, no preview title, and the
    /// default theme.
    fn default() -> (r: UiConfig)
        ensures
            !r.use_nerd_font_icons,
            r.ui_scale == DEFAULT_UI_SCALE,
            !r.show_help_bar,
            r.show_preview_panel,
            r.input_bar_position == InputPosition::Top,
            r.preview_title_position is None,
            r.theme@ == DEFAULT_THEME@,
    {
        UiConfig {
            use_nerd_font_icons: false,
            ui_scale: DEFAULT_UI_SCALE,
            show_help_bar: false,
            show_preview_panel: true,
            input_bar_position: InputPosition::Top,
            preview_title_position: None,
            theme: DEFAULT_THEME.to_owned(),
        }
    }
}

} // verus!
