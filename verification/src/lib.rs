pub mod cell_damage;
pub mod config_map;
pub mod dirty_rects;
pub mod domain_registry;
pub mod frame_time;
pub mod gdi_frame;
pub mod prev_cursor;
pub mod raster;
pub mod render_keys;
pub mod shader_source;
pub mod shader_uniforms;
pub mod sidebar;
pub mod ssh_auth;
pub mod ssh_config;
pub mod ssh_env;
pub mod ssh_parse;
pub mod ssh_pattern;
pub mod tab_bar;
pub mod text;
pub mod tokenizer;
pub mod wide_text;
