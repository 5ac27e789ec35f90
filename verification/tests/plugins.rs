use zappy::console::{parse_ansi_colors, Color, HostState, SharedEngineState};
use zappy::crosshair::{CrosshairModule, ResponseCommand};
use zappy::cube::key_offset;
use zappy::plugins::{dispatch_input, plugin_file_name, plugin_files, plugin_name, reload_order, InputDispatch};

const DEFAULT: Color = Color { r: 220, g: 220, b: 225, a: 255 };

#[test]
fn plain_text_is_one_default_segment() {
    let segments = parse_ansi_colors("hello");
    assert_eq!(segments.len(), 1);
    assert_eq!(segments[0].text, "hello");
    assert_eq!(segments[0].color, DEFAULT);
    assert!(parse_ansi_colors("").is_empty());
}

#[test]
fn color_codes_cut_the_text() {
    let segments = parse_ansi_colors("a\x1b[31mred\x1b[0mb");
    let texts: Vec<&str> = segments.iter().map(|s| s.text.as_str()).collect();
    assert_eq!(texts, vec!["a", "red", "b"]);
    assert_eq!(segments[0].color, DEFAULT);
    assert_ne!(segments[1].color, DEFAULT);
    assert_eq!(segments[2].color, DEFAULT);
    let joined: String = segments.iter().map(|s| s.text.clone()).collect();
    assert_eq!(joined, "aredb");
}

#[test]
fn a_dangling_escape_is_kept_as_text() {
    let segments = parse_ansi_colors("x\x1b");
    let joined: String = segments.iter().map(|s| s.text.clone()).collect();
    assert_eq!(joined, "x\x1b");
}

#[test]
fn the_crosshair_switches_on_and_off() {
    let mut module = CrosshairModule::new();
    let on = vec!["1".to_string()];
    let off = vec!["0".to_string()];
    assert_eq!(module.run_command("display_crosshair", &on), ResponseCommand::Success);
    assert!(module.active);
    assert_eq!(module.run_command("display_crosshair", &on), ResponseCommand::Success);
    assert!(module.active);
    assert_eq!(module.run_command("display_crosshair", &off), ResponseCommand::Success);
    assert!(!module.active);
    assert_eq!(module.run_command("display_crosshair", &vec!["+01".to_string()]), ResponseCommand::Success);
    assert!(module.active);
}

#[test]
fn the_crosshair_refuses_bad_arguments() {
    let mut module = CrosshairModule::new();
    assert_eq!(module.run_command("display_crosshair", &vec![]), ResponseCommand::BadArgument);
    assert_eq!(module.run_command("display_crosshair", &vec!["2".to_string()]), ResponseCommand::BadArgument);
    assert_eq!(module.run_command("display_crosshair", &vec!["256".to_string()]), ResponseCommand::BadArgument);
    assert_eq!(module.run_command("display_crosshair", &vec!["-0".to_string()]), ResponseCommand::BadArgument);
    assert_eq!(module.run_command("display_crosshair", &vec!["on".to_string()]), ResponseCommand::BadArgument);
    assert_eq!(module.run_command("dance", &vec!["1".to_string()]), ResponseCommand::Unknown);
    assert!(!module.active);
}

#[test]
fn the_crosshair_state_survives_a_reload() {
    let mut module = CrosshairModule::new();
    module.active = true;
    let bytes = module.serialize();
    assert_eq!(bytes, vec![1u8]);
    let mut reloaded = CrosshairModule::new();
    reloaded.deserialize(bytes);
    assert!(reloaded.active);
    reloaded.deserialize(vec![0, 9]);
    assert!(!reloaded.active);
    reloaded.deserialize(vec![7]);
    assert!(!reloaded.active);
    reloaded.deserialize(vec![]);
    assert!(!reloaded.active);
    assert_eq!(CrosshairModule::new().serialize(), vec![0u8]);
}

#[test]
fn the_crosshair_subscribes_once() {
    let mut module = CrosshairModule::new();
    assert!(module.init_module());
    assert!(!module.init_module());
    assert_eq!(
        CrosshairModule::handle_event("crosshair:update_crosshair", "x=1"),
        Some("crosshair updated: x=1".to_string())
    );
    assert_eq!(CrosshairModule::handle_event("other", "x=1"), None);
    let commands = CrosshairModule::get_commands();
    assert_eq!(commands.len(), 1);
    assert_eq!(commands[0].name, "display_crosshair");
    assert_eq!(commands[0].options, "<0|1>");
}

#[test]
fn arrow_keys_move_the_cube() {
    assert_eq!(key_offset("Left"), Some((-10, 0)));
    assert_eq!(key_offset("Right"), Some((10, 0)));
    assert_eq!(key_offset("Up"), Some((0, -10)));
    assert_eq!(key_offset("Down"), Some((0, 10)));
    assert_eq!(key_offset("Space"), None);
}

#[test]
fn the_host_keeps_each_plugins_commands() {
    let mut shared = SharedEngineState::new();
    shared.cache_commands(vec![("a".to_string(), "first".to_string()), ("b".to_string(), "second".to_string())]);
    shared.replace_cached_commands("a", vec![("c".to_string(), "third".to_string())]);
    assert_eq!(
        shared.cached_commands,
        vec![("b".to_string(), "second".to_string()), ("c".to_string(), "third".to_string())]
    );
    assert!(shared.take_logs().is_empty());
}

#[test]
fn the_host_answers_help_and_reload() {
    let mut shared = SharedEngineState::new();
    shared.cache_commands(vec![("display_crosshair".to_string(), "Show / hide crosshair".to_string())]);
    let mut host = HostState { shared };
    let reply = host.host_system_command("help".to_string(), vec![]);
    let text: String = reply.iter().map(|s| s.text.clone()).collect();
    assert!(text.contains("display_crosshair"));
    assert!(text.contains("Show / hide crosshair"));
    host.host_system_command("reload".to_string(), vec!["crosshair".to_string()]);
    assert_eq!(host.shared.reload_queue, vec![Some("crosshair".to_string())]);
    let line = host.host_log("hello".to_string());
    assert!(line.contains("hello"));
    let logs = host.shared.take_logs();
    assert_eq!(logs.len(), 1);
    let text: String = logs[0].iter().map(|s| s.text.clone()).collect();
    assert_eq!(text, "[PLUGIN] hello");
}

#[test]
fn plugin_files_are_the_wasm_files_in_name_order() {
    let names: Vec<String> = ["zeta.wasm", "readme.md", ".wasm", "alpha.wasm", "a-b.wasm", "a.wasm", "wasm", "b.wasm.bak"]
        .iter()
        .map(|name| name.to_string())
        .collect();
    assert_eq!(plugin_files(&names), vec!["a-b.wasm", "a.wasm", "alpha.wasm", "zeta.wasm"]);
    assert!(plugin_files(&vec![]).is_empty());
    assert_eq!(plugin_name("crosshair.wasm"), "crosshair");
    assert_eq!(plugin_file_name("crosshair"), "crosshair.wasm");
    assert_eq!(plugin_name(&plugin_file_name("cube")), "cube");
}

#[test]
fn the_first_plugin_to_consume_an_input_stops_it() {
    assert_eq!(dispatch_input(&vec![Some(false), None, Some(true), None]), vec![true, false, true, true]);
    assert!(dispatch_input(&vec![]).is_empty());
    let mut dispatch = InputDispatch::new();
    assert!(dispatch.offers());
    assert!(!dispatch.answer(None));
    assert!(dispatch.answer(Some(true)));
    assert!(!dispatch.offers());
}

#[test]
fn the_host_answers_whatever_the_inputs_hold() {
    let mut host = HostState { shared: SharedEngineState::new() };
    let reply = host.host_system_command("reload".to_string(), vec!["a\x1b[0mb".to_string()]);
    assert!(!reply.is_empty());
    let reply = host.host_system_command("dance".to_string(), vec!["\x1b".to_string()]);
    let text: String = reply.iter().map(|s| s.text.clone()).collect();
    assert_eq!(text, "[ERROR] Unknown command: dance. See available commands with 'help'.");
}

#[test]
fn a_reloaded_plugin_takes_its_place_by_name() {
    let names: Vec<String> = ["b", "a", "c", "a2"].iter().map(|n| n.to_string()).collect();
    assert_eq!(reload_order(&names, "c", true), vec![1, 3, 0, 4]);
    assert_eq!(reload_order(&names, "c", false), vec![0, 1, 3]);
    let unsorted: Vec<String> = ["b", "a"].iter().map(|n| n.to_string()).collect();
    assert_eq!(reload_order(&unsorted, "c", false), vec![0, 1]);
    let twins: Vec<String> = ["x", "x", "y"].iter().map(|n| n.to_string()).collect();
    assert_eq!(reload_order(&twins, "y", false), vec![0, 1]);
    assert_eq!(reload_order(&twins, "x", true), vec![3, 2]);
    assert_eq!(reload_order(&vec![], "z", true), vec![0]);
}
