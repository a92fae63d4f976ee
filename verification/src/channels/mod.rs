//! Chat channels: Feishu and Weixin.

pub mod chunks;
pub mod feishu;
pub mod feishu_attach;
pub mod feishu_events;
pub mod pb;
pub mod turn;
pub mod weixin;
pub mod weixin_login;
