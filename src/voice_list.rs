//! Records of the voice catalog.

use vstd::prelude::*;

verus! {

/// One voice of the catalog.
#[derive(Default, Debug, Clone, PartialEq)]
pub struct Voice {
    /// Full name, e.g. "Microsoft Server Speech Text to Speech Voice (zh-CN, XiaoxiaoNeural)".
    pub name: String,
    /// Short name, e.g. "zh-CN-XiaoxiaoNeural".
    pub short_name: String,
    /// e.g. "Female".
    pub gender: String,
    /// e.g. "zh-CN".
    pub locale: String,
    /// e.g. "audio-24khz-48kbitrate-mono-mp3".
    pub suggested_codec: String,
    /// e.g. "Microsoft Xiaoxiao Online (Natural) - Chinese (Mainland)".
    pub friendly_name: String,
    /// e.g. "GA".
    pub status: String,
    pub voice_tag: VoiceTag,
}

/// The tags of a voice.
#[derive(Default, Debug, Clone, PartialEq)]
pub struct VoiceTag {
    /// e.g. "Conversation", "News", "Novel".
    pub content_categories: Vec<String>,
    /// e.g. "Friendly", "Lively", "Warm".
    pub voice_personalities: Vec<String>,
}

} // verus!
