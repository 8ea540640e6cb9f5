//! The appearance configuration the terminal layer renders with: icons,
//! colors and border style, with the built-in defaults that stand in when
//! no configuration file can be read.

use vstd::prelude::*;

verus! {

/// The glyphs drawn around tasks and sub-tasks.
pub struct Icons {
    pub cursor: String,
    pub task_new: String,
    pub task_in_progress: String,
    pub task_hold: String,
    pub task_done: String,
    pub topic_icon_left: String,
    pub topic_icon_right: String,
    pub sub_task_middle: String,
    pub sub_task_end: String,
}

/// The border style of the panes.
pub struct ObjectType {
    pub border_type: String,
}

/// The color palette, as hex strings the terminal layer parses.
pub struct Colors {
    pub bat_color_sheme: String,
    pub header_color: String,
    pub footer_color: String,
    pub border_color: String,
    pub task_topic_color_new_fg: String,
    pub task_topic_color_in_progress_fg: String,
    pub task_topic_color_hold_fg: String,
    pub task_topic_color_done_fg: String,
    pub task_topic_color_new_bg: String,
    pub task_topic_color_in_progress_bg: String,
    pub task_topic_color_hold_bg: String,
    pub task_topic_color_done_bg: String,
    pub task_text_color: String,
    pub task_text_color_done: String,
    pub task_date_color: String,
    pub task_duration_color: String,
    pub icon_new_color: String,
    pub icon_progress_color: String,
    pub icon_hold_color: String,
    pub icon_done_color: String,
}

/// The whole appearance configuration.
pub struct AppConfig {
    pub icons: Icons,
    pub colors: Colors,
    pub object_type: ObjectType,
}

/// Whether a configuration carries exactly the built-in default values.
pub open spec fn is_default_config(c: &AppConfig) -> bool {
    &&& c.icons.cursor@ == "-> "@
    &&& c.icons.task_new@ == "[ ]"@
    &&& c.icons.task_in_progress@ == "[*]"@
    &&& c.icons.task_hold@ == "[-]"@
    &&& c.icons.task_done@ == "[+]"@
    &&& c.icons.topic_icon_left@ == ""@
    &&& c.icons.topic_icon_right@ == ""@
    &&& c.icons.sub_task_middle@ == "|-"@
    &&& c.icons.sub_task_end@ == "|-"@
    &&& c.colors.bat_color_sheme@ == "base16-256"@
    &&& c.colors.header_color@ == "#b4befe"@
    &&& c.colors.footer_color@ == "#a6e3a1"@
    &&& c.colors.border_color@ == "#b4befe"@
    &&& c.colors.task_topic_color_new_fg@ == "#b4befe"@
    &&& c.colors.task_topic_color_in_progress_fg@ == "#b4befe"@
    &&& c.colors.task_topic_color_hold_fg@ == "#b4befe"@
    &&& c.colors.task_topic_color_done_fg@ == "#b4befe"@
    &&& c.colors.task_topic_color_new_bg@ == "#000000"@
    &&& c.colors.task_topic_color_in_progress_bg@ == "#000000"@
    &&& c.colors.task_topic_color_hold_bg@ == "#000000"@
    &&& c.colors.task_topic_color_done_bg@ == "#000000"@
    &&& c.colors.task_text_color@ == "#cdd6f4"@
    &&& c.colors.task_text_color_done@ == "#cdd6f4"@
    &&& c.colors.task_date_color@ == "#7f849c"@
    &&& c.colors.task_duration_color@ == "#7f849c"@
    &&& c.colors.icon_new_color@ == "#cdd6f4"@
    &&& c.colors.icon_progress_color@ == "#cdd6f4"@
    &&& c.colors.icon_hold_color@ == "#cdd6f4"@
    &&& c.colors.icon_done_color@ == "#cdd6f4"@
    &&& c.object_type.border_type@ == "single"@
}

impl Default for AppConfig {
    /// The built-in appearance: plain borders, bracket icons, and the
    /// default palette.
    fn default() -> (c: AppConfig)
        ensures
            is_default_config(&c),
    {
        AppConfig {
            icons: Icons {
                cursor: String::from_str("-> "),
                task_new: String::from_str("[ ]"),
                task_in_progress: String::from_str("[*]"),
                task_hold: String::from_str("[-]"),
                task_done: String::from_str("[+]"),
                topic_icon_left: String::from_str(""),
                topic_icon_right: String::from_str(""),
                sub_task_middle: String::from_str("|-"),
                sub_task_end: String::from_str("|-"),
            },
            colors: Colors {
                bat_color_sheme: String::from_str("base16-256"),
                header_color: String::from_str("#b4befe"),
                footer_color: String::from_str("#a6e3a1"),
                border_color: String::from_str("#b4befe"),
                task_topic_color_new_fg: String::from_str("#b4befe"),
                task_topic_color_in_progress_fg: String::from_str("#b4befe"),
                task_topic_color_hold_fg: String::from_str("#b4befe"),
                task_topic_color_done_fg: String::from_str("#b4befe"),
                task_topic_color_new_bg: String::from_str("#000000"),
                task_topic_color_in_progress_bg: String::from_str("#000000"),
                task_topic_color_hold_bg: String::from_str("#000000"),
                task_topic_color_done_bg: String::from_str("#000000"),
                task_text_color: String::from_str("#cdd6f4"),
                task_text_color_done: String::from_str("#cdd6f4"),
                task_date_color: String::from_str("#7f849c"),
                task_duration_color: String::from_str("#7f849c"),
                icon_new_color: String::from_str("#cdd6f4"),
                icon_progress_color: String::from_str("#cdd6f4"),
                icon_hold_color: String::from_str("#cdd6f4"),
                icon_done_color: String::from_str("#cdd6f4"),
            },
            object_type: ObjectType { border_type: String::from_str("single") },
        }
    }
}

impl AppConfig {
    /// The configuration to run with: what the configuration file parsed
    /// to, or the built-in defaults when it was missing or unreadable.
    pub fn load_config(parsed: Option<AppConfig>) -> (c: AppConfig)
        ensures
            parsed matches Some(given) ==> c == given,
            parsed is None ==> is_default_config(&c),
    {
        match parsed {
            Some(given) => given,
            None => AppConfig::default(),
        }
    }
}

} // verus!
