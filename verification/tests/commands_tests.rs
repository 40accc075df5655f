use notevault::commands::{
    applied_template, file_content, links_response, require_new_vault, require_vault_directory,
    vault_info, files_in_folder, graph_depth, search_limit, check_app_key, check_vault_key, collect_daily_notes, daily_note_path, daily_note_template,
    daily_notes_list, fts_query, new_daily_note, notes_by_tag_response, parse_flag, parse_number,
    read_date, recent_vaults_response, search_response, setting_text, tag_list_response,
    tag_search_response, templates_response, AppSettings, SettingValue, VaultSettings,
};
use notevault::error::AppError;
use notevault::records::{LinkInfo, RecentVault, SearchResult, TagInfo};
use notevault::vault::describe_file;
use notevault::template::TemplateProcessor;
use notevault::vault::FileEntry;

fn file(name: &str) -> FileEntry {
    FileEntry {
        name: name.to_string(),
        path: format!("Daily Notes/{}", name),
        is_directory: false,
        extension: name.rsplit('.').next().map(|e| e.to_string()),
        size: 0,
        created: None,
        modified: None,
        children: None,
    }
}

#[test]
fn search_query_is_escaped_and_starred() {
    assert_eq!(fts_query("sched"), "sched*");
    assert_eq!(fts_query("say \"hi\""), "say \"\"hi\"\"*");
}

#[test]
fn setting_keys_need_their_prefix() {
    assert!(check_app_key("app.theme").is_ok());
    match check_app_key("vault.x") {
        Err(AppError::Custom(m)) => {
            assert_eq!(m, "Invalid setting key: vault.x. App settings must start with 'app.'")
        }
        _ => panic!("the key was accepted"),
    }
    assert!(check_vault_key("vault.daily_notes_folder").is_ok());
    match check_vault_key("app") {
        Err(AppError::Custom(m)) => {
            assert_eq!(m, "Invalid setting key: app. Vault settings must start with 'vault.'")
        }
        _ => panic!("the key was accepted"),
    }
}

#[test]
fn setting_values_become_text() {
    assert_eq!(setting_text(SettingValue::Text("dark".to_string())), "dark");
    assert_eq!(setting_text(SettingValue::Number("14".to_string())), "14");
    assert_eq!(setting_text(SettingValue::Flag(true)), "true");
    assert_eq!(setting_text(SettingValue::Flag(false)), "false");
    assert_eq!(setting_text(SettingValue::Null), "");
    assert_eq!(setting_text(SettingValue::Composite("[\"a\"]".to_string())), "[\"a\"]");
}

#[test]
fn numbers_and_flags_are_read() {
    assert_eq!(parse_number("14"), Some(14));
    assert_eq!(parse_number("+7"), Some(7));
    assert_eq!(parse_number("007"), Some(7));
    assert_eq!(parse_number("4294967295"), Some(4294967295));
    assert_eq!(parse_number("4294967296"), None);
    assert_eq!(parse_number("99999999999999999999999"), None);
    assert_eq!(parse_number(""), None);
    assert_eq!(parse_number("+"), None);
    assert_eq!(parse_number("-1"), None);
    assert_eq!(parse_number("1a"), None);
    assert_eq!(parse_flag(&"true".to_string()), Some(true));
    assert_eq!(parse_flag(&"false".to_string()), Some(false));
    assert_eq!(parse_flag(&"True".to_string()), None);
}

#[test]
fn settings_from_the_store() {
    let s = AppSettings::from_stored(
        Some("dark".to_string()),
        Some("14".to_string()),
        None,
        Some("true".to_string()),
        Some("nope".to_string()),
        Some("x".to_string()),
        None,
        Some("false".to_string()),
    );
    assert_eq!(s.theme, Some("dark".to_string()));
    assert_eq!(s.font_size, Some(14));
    assert_eq!(s.vim_mode, Some(true));
    assert_eq!(s.spell_check, None);
    assert_eq!(s.auto_save_interval, None);
    assert_eq!(s.word_wrap, Some(false));
    assert!(AppSettings::unset().theme.is_none());
    let v = VaultSettings::from_stored(None, None, Some("T".to_string()), None, None, None, None);
    assert_eq!(v.daily_notes_folder, Some("Daily Notes".to_string()));
    assert_eq!(v.templates_folder, Some("T".to_string()));
    assert_eq!(v.attachments_folder, Some("Attachments".to_string()));
    assert_eq!(v.daily_note_format, Some("%Y-%m-%d".to_string()));
    assert_eq!(v.default_note_folder, None);
}

#[test]
fn responses_count_what_they_hold() {
    let hit = SearchResult { path: "a.md".to_string(), title: "A".to_string(), snippet: "s".to_string() };
    let r = search_response(vec![hit.clone(), hit.clone()], "q".to_string());
    assert_eq!(r.total, 2);
    assert_eq!(r.query, "q");
    let t = tag_search_response(vec![hit], "rust");
    assert_eq!(t.total, 1);
    assert_eq!(t.query, "#rust");
    let tags = tag_list_response(vec![TagInfo { name: "a".to_string(), count: 3 }]);
    assert_eq!(tags.total, 1);
    let by_tag = notes_by_tag_response("a".to_string(), vec!["x.md".to_string(), "y.md".to_string()]);
    assert_eq!(by_tag.count, 2);
    assert_eq!(by_tag.tag, "a");
}

#[test]
fn dates_are_read_and_written_back() {
    assert_eq!(read_date("2024-06-01").ok(), Some("2024-06-01".to_string()));
    assert_eq!(read_date("2024-6-1").ok(), Some("2024-06-01".to_string()));
    match read_date("June first") {
        Err(AppError::Custom(m)) => assert!(m.starts_with("Invalid date format: ")),
        _ => panic!("no date was read"),
    }
    assert_eq!(daily_note_path("2024-06-01"), "Daily Notes/2024-06-01.md");
}

#[test]
fn daily_notes_are_listed_latest_first() {
    let entries = vec![
        file("2024-01-02.md"),
        file("notes.md"),
        file("2024-03-01.md"),
        file("2023-12-31.md"),
        file("2024-02-01.txt"),
    ];
    let found = collect_daily_notes(&entries);
    assert_eq!(found.len(), 3);
    assert_eq!(found[0].date, "2024-01-02");
    assert_eq!(found[0].path, "Daily Notes/2024-01-02.md");
    let all = daily_notes_list(&entries, None);
    let dates: Vec<&str> = all.notes.iter().map(|n| n.date.as_str()).collect();
    assert_eq!(dates, vec!["2024-03-01", "2024-01-02", "2023-12-31"]);
    assert!(all.notes.iter().all(|n| n.exists && n.content.is_none()));
    let two = daily_notes_list(&entries, Some(2));
    assert_eq!(two.notes.len(), 2);
    assert_eq!(two.notes[1].date, "2024-01-02");
    assert_eq!(daily_notes_list(&entries, Some(0)).notes.len(), 0);
    assert_eq!(daily_notes_list(&entries, Some(9)).notes.len(), 3);
}

#[test]
fn templates_are_the_markdown_files() {
    let mut dir = file("Folder.md");
    dir.is_directory = true;
    let r = templates_response(&vec![file("Daily Note.md"), file("readme.txt"), dir]);
    assert_eq!(r.templates.len(), 1);
    assert_eq!(r.templates[0].name, "Daily Note");
    assert_eq!(r.templates[0].path, "Daily Notes/Daily Note.md");
}

#[test]
fn recent_vaults_that_are_gone_are_left_out() {
    let recent = vec![
        (RecentVault { path: "/a".to_string(), name: "a".to_string(), last_opened: "t1".to_string() }, false),
        (RecentVault { path: "/b".to_string(), name: "b".to_string(), last_opened: "t2".to_string() }, true),
    ];
    let r = recent_vaults_response(&recent);
    assert_eq!(r.len(), 1);
    assert_eq!(r[0].name, "b");
    assert_eq!(r[0].last_opened, "t2");
}

#[test]
fn templates_are_filled_in() {
    let vars = vec![("title".to_string(), "My Day".to_string()), ("mood".to_string(), "fine".to_string())];
    let out = TemplateProcessor::process(
        "# {{title}} on {{date}} at {{time}} ({{datetime}}) {{date:%d.%m.%Y}} {{mood}} {{other}}",
        &vars,
        86_400 + 3_600,
        3_600,
    );
    assert_eq!(out, "# My Day on 1970-01-02 at 02:00 (1970-01-02 02:00) 02.01.1970 fine {{other}}");
    assert_eq!(TemplateProcessor::process("plain", &Vec::new(), 0, 0), "plain");
}

#[test]
fn a_new_daily_note_uses_the_template_or_the_default() {
    let from_template = new_daily_note("2024-06-01", &Some(daily_note_template().to_string()), 0, 0);
    assert_eq!(
        from_template,
        "---\ntitle: \"2024-06-01\"\ncreated: 1970-01-01 00:00\ntags: [daily-note]\n---\n\n# 2024-06-01\n\n## Tasks\n\n- [ ]\n\n## Notes\n\n"
    );
    let default = new_daily_note("2024-06-01", &None, 0, 0);
    assert_eq!(
        default,
        "---\ntitle: \"2024-06-01\"\ncreated: 1970-01-01 00:00\ntags: [daily-note]\n---\n\n# 2024-06-01\n\n## Notes\n\n"
    );
}

#[test]
fn files_of_a_deleted_folder() {
    let files = vec![
        "notes/a.md".to_string(),
        "notes2/b.md".to_string(),
        "notes/sub/c.md".to_string(),
        "notes".to_string(),
    ];
    assert_eq!(
        files_in_folder(&files, &"notes".to_string()),
        vec!["notes/a.md".to_string(), "notes/sub/c.md".to_string(), "notes".to_string()]
    );
    assert_eq!(
        files_in_folder(&files, &"notes/".to_string()),
        vec!["notes/a.md".to_string(), "notes/sub/c.md".to_string()]
    );
}

#[test]
fn limits_have_their_defaults() {
    assert_eq!(search_limit(None), 50);
    assert_eq!(search_limit(Some(3)), 3);
    assert_eq!(graph_depth(None), 1);
    assert_eq!(graph_depth(Some(0)), 0);
}

#[test]
fn vaults_are_opened_and_created_by_rule() {
    assert!(require_vault_directory("/v", true).is_ok());
    match require_vault_directory("/v", false) {
        Err(AppError::InvalidPath(m)) => assert_eq!(m, "Not a valid vault directory: /v"),
        _ => panic!("a file was taken for a vault"),
    }
    assert!(require_new_vault("/v/new", false).is_ok());
    match require_new_vault("/v/new", true) {
        Err(AppError::AlreadyExists(m)) => assert_eq!(m, "Vault already exists at: /v/new"),
        _ => panic!("a vault was created over another"),
    }
    let info = vault_info("v".to_string(), "/v".to_string(), 3);
    assert!(info.is_open);
    assert_eq!(info.note_count, 3);
}

#[test]
fn answers_are_shaped() {
    let applied = applied_template("Templates/Daily Note.md", "text".to_string());
    assert_eq!(applied.template_name, "Daily Note");
    assert_eq!(applied.content, "text");
    assert_eq!(applied_template("/", String::new()).template_name, "Untitled");
    let info = describe_file("a.md".to_string(), "a.md".to_string(), 1, None, Some("t".to_string()), None);
    let content = file_content("a.md".to_string(), "body".to_string(), info);
    assert_eq!(content.modified, Some("t".to_string()));
    assert_eq!(content.content, "body");
    let links = links_response(
        "a.md".to_string(),
        vec![LinkInfo { path: "b.md".to_string(), title: "B".to_string(), link_text: None }],
    );
    assert_eq!(links.path, "a.md");
    assert_eq!(links.links.len(), 1);
}
