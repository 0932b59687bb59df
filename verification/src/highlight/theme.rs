//! Colors of code highlight classes.
use vstd::prelude::*;
use crate::config::theme::EditorColors;

verus! {

/// The color of each highlight class, as `#RRGGBB`; field `type_` is the
/// class `type`.
#[derive(Debug, Clone)]
pub struct CodeTheme {
    pub attribute: String,
    pub comment: String,
    pub constant: String,
    pub function: String,
    pub keyword: String,
    pub number: String,
    pub operator: String,
    pub property: String,
    pub punctuation: String,
    pub string: String,
    pub tag: String,
    pub type_: String,
}

impl CodeTheme {
    /// The colors by class index.
    pub open spec fn colors(self) -> Seq<Seq<char>> {
        seq![
            self.attribute@,
            self.comment@,
            self.constant@,
            self.function@,
            self.keyword@,
            self.number@,
            self.operator@,
            self.property@,
            self.punctuation@,
            self.string@,
            self.tag@,
            self.type_@,
        ]
    }

    /// Takes the code colors of the editor colors.
    pub fn from_editor_colors(colors: &EditorColors) -> (r: Self)
        ensures
            r.attribute@ == colors.code_attribute@,
            r.comment@ == colors.code_comment@,
            r.constant@ == colors.code_constant@,
            r.function@ == colors.code_function@,
            r.keyword@ == colors.code_keyword@,
            r.number@ == colors.code_number@,
            r.operator@ == colors.code_operator@,
            r.property@ == colors.code_property@,
            r.punctuation@ == colors.code_punctuation@,
            r.string@ == colors.code_string@,
            r.tag@ == colors.code_tag@,
            r.type_@ == colors.code_type@,
    {
        CodeTheme {
            attribute: colors.code_attribute.clone(),
            comment: colors.code_comment.clone(),
            constant: colors.code_constant.clone(),
            function: colors.code_function.clone(),
            keyword: colors.code_keyword.clone(),
            number: colors.code_number.clone(),
            operator: colors.code_operator.clone(),
            property: colors.code_property.clone(),
            punctuation: colors.code_punctuation.clone(),
            string: colors.code_string.clone(),
            tag: colors.code_tag.clone(),
            type_: colors.code_type.clone(),
        }
    }

    /// The color of the highlight class `index`; `None` past the last class.
    pub fn color_by_index(&self, index: usize) -> (r: Option<&str>)
        ensures
            match r {
                Some(s) => index < 12 && s@ == self.colors()[index as int],
                None => index >= 12,
            },
    {
        match index {
            0 => Some(self.attribute.as_str()),
            1 => Some(self.comment.as_str()),
            2 => Some(self.constant.as_str()),
            3 => Some(self.function.as_str()),
            4 => Some(self.keyword.as_str()),
            5 => Some(self.number.as_str()),
            6 => Some(self.operator.as_str()),
            7 => Some(self.property.as_str()),
            8 => Some(self.punctuation.as_str()),
            9 => Some(self.string.as_str()),
            10 => Some(self.tag.as_str()),
            11 => Some(self.type_.as_str()),
            _ => None,
        }
    }
}

impl Default for CodeTheme {
    fn default() -> (r: Self)
        ensures
            r.attribute@ == "#f9e2af"@,
            r.comment@ == "#6c7086"@,
            r.constant@ == "#fab387"@,
            r.function@ == "#89b4fa"@,
            r.keyword@ == "#cba6f7"@,
            r.number@ == "#fab387"@,
            r.operator@ == "#89dceb"@,
            r.property@ == "#89b4fa"@,
            r.punctuation@ == "#6c7086"@,
            r.string@ == "#a6e3a1"@,
            r.tag@ == "#f38ba8"@,
            r.type_@ == "#f9e2af"@,
    {
        CodeTheme {
            attribute: "#f9e2af".to_owned(),
            comment: "#6c7086".to_owned(),
            constant: "#fab387".to_owned(),
            function: "#89b4fa".to_owned(),
            keyword: "#cba6f7".to_owned(),
            number: "#fab387".to_owned(),
            operator: "#89dceb".to_owned(),
            property: "#89b4fa".to_owned(),
            punctuation: "#6c7086".to_owned(),
            string: "#a6e3a1".to_owned(),
            tag: "#f38ba8".to_owned(),
            type_: "#f9e2af".to_owned(),
        }
    }
}

} // verus!
