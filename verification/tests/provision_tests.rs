//! Tests of the registry pair, the report, the tasks, sshd's declarations, and the decisions of
//! `apply` and `verify`.
use ssh_broker::provision::probe::{probe_end, ProbeReport, SymlinkState, UpstreamState};
use ssh_broker::provision::registry::{registry_pair, value_chars, OPENSSH_KEY};
use ssh_broker::provision::report::{format_report, verify_exit_code, Check};
use ssh_broker::provision::schtasks::{
    agent_task_xml, create_from_xml_argv, parse_query_registered, query_task_argv, run_task_argv,
    selfheal_task_argv, xml_file_bytes, xml_has_interactive_token, AGENT_TASK,
};
use ssh_broker::provision::sshd::{
    matches_declaration, parse_subsystems, same_declarations, Subsystem,
};
use ssh_broker::provision::{
    after_copy, after_sshd, arg_user, base_dir, canonical_exe, config_path, decode_output, default_shell_ok,
    eq_path, finish_install, install_action, interactive_user, next_step, no_declarations,
    output_units, probe_command, probe_result, relay_failed, schtasks_error, sshd_candidates,
    sshd_declarations, starts_agent, verify_rows, ApplyStep, InstallAction, InstallRefusal, SshdNext, SshdRun, VerifyFacts,
};

#[test]
fn pair_is_option_first_then_shell() {
    let pair = registry_pair(r"C:\ProgramData\ssh-broker\ssh-broker.exe");
    assert_eq!(pair[0], ("DefaultShellCommandOption", "-c".to_string()));
    assert_eq!(pair[1].0, "DefaultShell");
    assert_eq!(pair[1].1, r"C:\ProgramData\ssh-broker\ssh-broker.exe");
    assert_eq!(OPENSSH_KEY, r"SOFTWARE\OpenSSH");
}

#[test]
fn registry_value_has_no_final_zero() {
    assert_eq!(value_chars(0, 512), 0);
    assert_eq!(value_chars(2, 512), 0);
    assert_eq!(value_chars(6, 512), 2);
    assert_eq!(value_chars(4096, 512), 512);
}

#[test]
fn exit_code_zero_only_when_all_pass_and_nonempty() {
    let all_ok = vec![Check::new("a", true, ""), Check::new("b", true, "")];
    assert_eq!(verify_exit_code(&all_ok), 0);

    let one_fail = vec![Check::new("a", true, ""), Check::new("b", false, "nope")];
    assert_eq!(verify_exit_code(&one_fail), 1);

    // Empty is fail-closed: an empty report must never look like success.
    assert_eq!(verify_exit_code(&[]), 1);
}

#[test]
fn report_marks_pass_and_fail() {
    let rows = vec![Check::new("DefaultShell", true, "ok"), Check::new("DPAPI", false, "absent")];
    let out = format_report(&rows);
    assert!(out.contains("[PASS] DefaultShell"));
    assert!(out.contains("[FAIL] DPAPI"));
    assert!(out.contains("absent"));
    assert_eq!(
        out,
        "[PASS] DefaultShell                 ok\n[FAIL] DPAPI                        absent"
    );
    let long = "a name that is longer than twenty-eight";
    assert_eq!(
        format_report(&[Check::new(long, true, "d")]),
        format!("[PASS] {long} d")
    );
}

#[test]
fn agent_xml_sets_interactive_token_and_least_privilege() {
    let xml = agent_task_xml(r"C:\ProgramData\ssh-broker\ssh-broker.exe", "Test.User");
    assert!(xml.contains("<LogonType>InteractiveToken</LogonType>"), "must be InteractiveToken");
    assert!(xml.contains("<RunLevel>LeastPrivilege</RunLevel>"), "must be LeastPrivilege");
    assert!(xml.contains(r"C:\ProgramData\ssh-broker\ssh-broker.exe"));
    assert!(xml.contains("<Arguments>agent</Arguments>"));
    assert!(xml.contains("<UserId>Test.User</UserId>"));
    assert!(xml_has_interactive_token(&xml));
    assert_eq!(xml.lines().count(), 26);
    assert_eq!(xml.matches("<UserId>Test.User</UserId>").count(), 2);
}

#[test]
fn agent_xml_escapes_special_chars() {
    let xml = agent_task_xml(r"C:\a&b\x.exe", "DOM\\u<r");
    assert!(xml.contains("a&amp;b"));
    assert!(xml.contains("u&lt;r"));
    assert!(!xml.contains("a&b\\x")); // raw '&' must not survive
    let all = agent_task_xml("&<>\"'&amp;", "u");
    assert!(all.contains("<Command>&amp;&lt;&gt;&quot;&apos;&amp;amp;</Command>"));
}

#[test]
fn selfheal_argv_is_system_onstart_and_bakes_user() {
    let argv = selfheal_task_argv(r"C:\x\ssh-broker.exe", "Test.User");
    assert!(argv.contains(&"ONSTART".to_string()));
    assert!(argv.contains(&"SYSTEM".to_string()));
    assert!(argv.contains(&"HIGHEST".to_string()));
    // /TR quotes BOTH the exe and the user, carries `apply --user <name>`, never `agent`.
    let tr = argv.iter().position(|a| a == "/TR").map(|i| &argv[i + 1]).unwrap();
    assert_eq!(tr, "\"C:\\x\\ssh-broker.exe\" apply --user \"Test.User\"");
    assert!(!tr.contains(" agent"));
}

#[test]
fn selfheal_tr_quotes_a_spaced_account_so_it_survives_reparse() {
    let argv = selfheal_task_argv(r"C:\x\ssh-broker.exe", "Test User");
    let tr = argv.iter().position(|a| a == "/TR").map(|i| &argv[i + 1]).unwrap();
    assert!(tr.ends_with("apply --user \"Test User\""), "user not quoted: {tr}");
}

#[test]
fn create_run_query_argv_shapes() {
    assert_eq!(
        create_from_xml_argv(AGENT_TASK, r"C:\t\task.xml"),
        vec!["/Create", "/TN", "ssh-broker-agent", "/XML", r"C:\t\task.xml", "/F"]
    );
    assert_eq!(run_task_argv(AGENT_TASK), vec!["/Run", "/TN", "ssh-broker-agent"]);
    assert_eq!(
        query_task_argv(AGENT_TASK),
        vec!["/Query", "/TN", "ssh-broker-agent", "/XML"]
    );
}

#[test]
fn query_parsing_registered_and_token() {
    let xml = agent_task_xml("C:\\x.exe", "u");
    assert!(parse_query_registered(&xml, true)); // exists + XML returned
    assert!(!parse_query_registered(&xml, false)); // nonzero exit = not registered
    assert!(!parse_query_registered("ERROR: task not found", true)); // no <Task
    // A task that is NOT InteractiveToken must be detected as such.
    assert!(!xml_has_interactive_token("<Principal><LogonType>S4U</LogonType></Principal>"));
    assert!(xml_has_interactive_token(&xml));
    assert!(xml_has_interactive_token("INTERACTIVETOKEN"));
}

#[test]
fn xml_file_is_utf16_with_a_mark() {
    assert_eq!(xml_file_bytes(""), vec![0xff, 0xfe]);
    assert_eq!(
        xml_file_bytes("a\u{2014}\u{1f600}"),
        vec![0xff, 0xfe, b'a', 0, 0x14, 0x20, 0x3d, 0xd8, 0x00, 0xde]
    );
}

const DUMP: &str = "\
port 22
permitrootlogin prohibit-password
logingracetime 120
subsystem sftp sftp-server.exe
maxstartups 10:30:100
";

#[test]
fn finds_a_subsystem_among_unrelated_directives() {
    assert_eq!(
        parse_subsystems(DUMP),
        vec![Subsystem {
            name: "sftp".into(),
            command_line: "sftp-server.exe".into(),
        }]
    );
}

/// The whole remainder of the line is the command, spaces and all.
#[test]
fn the_command_is_the_whole_remainder_including_spaces_and_escapes() {
    let dump = r"subsystem sftp C:\\Program Files\\OpenSSH\\sftp-server.exe";
    let got = parse_subsystems(dump);
    assert_eq!(got.len(), 1);
    assert_eq!(got[0].command_line, r"C:\\Program Files\\OpenSSH\\sftp-server.exe");
    // And that is exactly what the shim would be asked to classify.
    assert!(matches_declaration(
        r"C:\\Program Files\\OpenSSH\\sftp-server.exe",
        &got
    ));
}

#[test]
fn several_subsystems_are_all_returned() {
    let dump = "subsystem sftp sftp-server.exe\nsubsystem backup C:\\tools\\backup.exe --now\n";
    let got = parse_subsystems(dump);
    assert_eq!(got.len(), 2);
    assert_eq!(got[1].name, "backup");
    assert_eq!(got[1].command_line, r"C:\tools\backup.exe --now");
    assert!(same_declarations(&got, &parse_subsystems(dump)));
    assert!(!same_declarations(&got, &got[..1]));
}

/// Matching is exact and whole-string.
#[test]
fn matching_is_exact_and_not_a_prefix_or_basename() {
    let declared = parse_subsystems(DUMP);
    assert!(matches_declaration("sftp-server.exe", &declared));
    assert!(
        !matches_declaration("sftp-server.exe -l ERROR", &declared),
        "a suffix must not match"
    );
    assert!(
        !matches_declaration("sftp-server", &declared),
        "a prefix must not match"
    );
    assert!(
        !matches_declaration(r"C:\evil\sftp-server.exe", &declared),
        "a matching basename must not match"
    );
    assert!(!matches_declaration("", &declared), "an empty command must never match");
}

#[test]
fn malformed_and_argument_less_lines_are_skipped() {
    assert!(parse_subsystems("").is_empty());
    assert!(parse_subsystems("subsystem\n").is_empty());
    assert!(parse_subsystems("subsystem sftp\n").is_empty(), "no command to match");
    assert!(
        parse_subsystems("subsystemsftp foo\n").is_empty(),
        "keyword needs its space"
    );
    assert!(parse_subsystems("port 22\nmaxstartups 10:30:100\n").is_empty());
    // A declaration still parses when it follows a malformed neighbour.
    assert_eq!(parse_subsystems("subsystem\nsubsystem sftp ok.exe\n").len(), 1);
    assert_eq!(parse_subsystems("\t subsystem x  y z \r\n")[0].command_line, "y z");
    assert!(parse_subsystems("subsystem  x y\n").is_empty());
}

#[test]
fn install_paths_are_fixed() {
    assert_eq!(base_dir(), r"C:\ProgramData\ssh-broker");
    assert_eq!(config_path(), r"C:\ProgramData\ssh-broker\config.toml");
    assert_eq!(canonical_exe(), r"C:\ProgramData\ssh-broker\ssh-broker.exe");
}

#[test]
fn a_service_is_no_interactive_user() {
    for service in ["", "System", "MACHINE$", "local service", "NETWORK SERVICE"] {
        assert_eq!(interactive_user(Some(service.into())), None, "{service}");
    }
    assert_eq!(interactive_user(Some("Test.User".into())), Some("Test.User".into()));
    assert_eq!(interactive_user(None), None);
}

#[test]
fn user_flag_takes_the_next_argument() {
    let user = |items: &[&str]| {
        let args: Vec<String> = items.iter().map(|s| s.to_string()).collect();
        arg_user(&args)
    };
    assert_eq!(user(&["exe", "apply", "--user", "A B"]), Some("A B".into()));
    assert_eq!(user(&["exe", "--user", ""]), None);
    assert_eq!(user(&["exe", "--user"]), None);
    assert_eq!(user(&["exe"]), None);
    assert_eq!(user(&["--user", "--user", "x"]), Some("--user".into()));
}

#[test]
fn registry_path_is_compared_bare_and_caseless() {
    assert!(eq_path(" \"C:\\X\\a.EXE\" ", "c:\\x\\A.exe"));
    assert!(!eq_path("C:\\X\\b.exe", "c:\\x\\a.exe"));
    assert!(default_shell_ok("C:\\a.exe", "-c", "C:\\A.exe"));
    assert!(!default_shell_ok("C:\\a.exe", "-C", "C:\\a.exe"));
}

#[test]
fn output_is_decoded_by_its_look() {
    assert_eq!(decode_output(b"plain \xc3\xa9"), "plain \u{e9}");
    assert_eq!(decode_output(b"bad \xff"), "bad \u{fffd}");
    // A mark, and an odd byte at the end.
    assert_eq!(decode_output(&[0xff, 0xfe, b'h', 0, b'i', 0, 7]), "hi");
    // No mark, but many zeros.
    let wide: Vec<u8> = "0123456789".bytes().flat_map(|b| [b, 0]).collect();
    assert_eq!(decode_output(&wide), "0123456789");
    assert_eq!(output_units(&wide).unwrap()[9], b'9' as u16);
    // Eight zeros are not many.
    assert!(output_units(&wide[..16]).is_none());
    // An unpaired surrogate.
    assert_eq!(decode_output(&[0xff, 0xfe, 0x00, 0xd8]), "\u{fffd}");
}

#[test]
fn declarations_come_from_a_run_or_fail_loudly() {
    assert_eq!(
        sshd_candidates(),
        vec!["sshd", r"C:\Windows\System32\OpenSSH\sshd.exe"]
    );
    let ran = |success: bool| SshdRun::Ran {
        success,
        stdout: DUMP.as_bytes().to_vec(),
        stderr: b"  no hostkeys \r\n".to_vec(),
    };
    assert_eq!(sshd_declarations("sshd", &ran(true)).unwrap().len(), 1);
    assert_eq!(
        sshd_declarations("sshd", &ran(false)).unwrap_err(),
        "`sshd -T` failed: no hostkeys"
    );
    assert_eq!(
        sshd_declarations("sshd", &SshdRun::NotRun("not found".into())).unwrap_err(),
        "could not run `sshd`: not found"
    );
    assert!(no_declarations(Some("why".into())).starts_with(
        "could not read sshd's effective configuration (why); the shim routes transfers"
    ));
    assert!(no_declarations(None).contains("(no attempt was made)"));
}

#[test]
fn the_second_sshd_is_tried_and_then_none() {
    let missing = SshdRun::NotRun("not found".into());
    match after_sshd(0, "sshd", &missing) {
        SshdNext::Try(next, reason) => {
            assert_eq!(next, 1);
            assert_eq!(reason, "could not run `sshd`: not found");
        }
        other => panic!("{other:?}"),
    }
    match after_sshd(1, "b.exe", &missing) {
        SshdNext::Failed(reason) => {
            assert_eq!(reason, no_declarations(Some("could not run `b.exe`: not found".into())));
        }
        other => panic!("{other:?}"),
    }
    let ran = SshdRun::Ran {
        success: true,
        stdout: DUMP.as_bytes().to_vec(),
        stderr: Vec::new(),
    };
    for tried in [0, 1] {
        match after_sshd(tried, "sshd", &ran) {
            SshdNext::Found(declared) => assert_eq!(declared.len(), 1),
            other => panic!("{other:?}"),
        }
    }
}

#[test]
fn install_keeps_a_program_that_cannot_be_replaced() {
    assert_eq!(install_action(true, false), InstallAction::Keep);
    assert_eq!(install_action(false, true), InstallAction::Keep);
    assert_eq!(install_action(false, false), InstallAction::Copy);
    assert_eq!(after_copy(true, false), InstallAction::Keep);
    assert_eq!(after_copy(false, true), InstallAction::KeepOld);
    assert_eq!(
        after_copy(false, false),
        InstallAction::Refuse(InstallRefusal::CopyFailed)
    );
    assert_eq!(finish_install(true), InstallAction::Installed);
    assert_eq!(finish_install(false), InstallAction::Refuse(InstallRefusal::Missing));
}

#[test]
fn apply_changes_the_shell_last() {
    let mut step = ApplyStep::Install;
    let mut trace = vec![step];
    while step != ApplyStep::Done {
        step = next_step(step, true);
        trace.push(step);
    }
    assert_eq!(
        trace,
        vec![
            ApplyStep::Install,
            ApplyStep::ResolveAccount,
            ApplyStep::Harden,
            ApplyStep::VerifyAcl,
            ApplyStep::ReadDeclarations,
            ApplyStep::WriteConfig,
            ApplyStep::RegisterAgent,
            ApplyStep::RegisterSelfHeal,
            ApplyStep::SetShell,
            ApplyStep::ReadBack,
            ApplyStep::StartAgent,
            ApplyStep::Done,
        ]
    );
    assert_eq!(next_step(ApplyStep::VerifyAcl, false), ApplyStep::Aborted);
    assert_eq!(next_step(ApplyStep::StartAgent, false), ApplyStep::Done);
    assert!(starts_agent(1));
    assert!(!starts_agent(u32::MAX));
}

fn healthy() -> VerifyFacts {
    VerifyFacts {
        shell: Ok(("C:\\a.exe".into(), "-c".into())),
        exe: "C:\\a.exe".into(),
        exe_present: true,
        saved_user: Some("me".into()),
        acl_ok: true,
        agent_xml: agent_task_xml("C:\\a.exe", "me"),
        agent_queried: true,
        selfheal_queried: false,
        reachable: true,
        recorded: parse_subsystems(DUMP),
        current: Ok(parse_subsystems(DUMP)),
        probe: Ok((
            ProbeReport {
                session_id: 2,
                dpapi_ok: true,
                symlink: SymlinkState::Skipped,
                upstream: UpstreamState::Intact,
            },
            true,
        )),
        active_console: 1,
    }
}

#[test]
fn verify_reports_a_healthy_host() {
    let rows = verify_rows(&healthy());
    assert_eq!(verify_exit_code(&rows), 0);
    let text: Vec<(&str, bool, &str)> = rows
        .iter()
        .map(|c| (c.name, c.pass, c.detail.as_str()))
        .collect();
    assert_eq!(
        text,
        vec![
            ("DefaultShell pair", true, "shell=\"C:\\\\a.exe\" opt=\"-c\""),
            ("socket dir ACL", true, "grantee=me"),
            ("agent task", true, "registered=true interactive_token=true"),
            ("self-heal task (info)", true, "not queryable (needs elevation)"),
            ("socket reachable", true, ""),
            ("subsystem declarations", true, "1 declared, matching sshd"),
            (
                "interactive session (via agent)",
                true,
                "session_id=2 (active console=1)"
            ),
            ("DPAPI (via agent)", true, ""),
            ("symlink (via agent)", true, "Skipped"),
            ("binary transparency (via agent)", true, ""),
            ("binary upload (via agent)", true, ""),
        ]
    );
}

#[test]
fn verify_fails_on_each_missing_piece() {
    let row = |f: &VerifyFacts, i: usize| {
        let rows = verify_rows(f);
        assert_eq!(verify_exit_code(&rows), if rows.iter().all(|c| c.pass) { 0 } else { 1 });
        (rows[i].pass, rows[i].detail.clone())
    };
    let mut f = healthy();
    f.exe_present = false;
    assert!(!row(&f, 0).0);
    f = healthy();
    f.shell = Err("no key".into());
    assert_eq!(row(&f, 0), (false, "no key".into()));
    f = healthy();
    f.saved_user = None;
    assert_eq!(row(&f, 1), (false, "no config target_user".into()));
    f = healthy();
    f.agent_xml = "<Task/>".into();
    assert_eq!(
        row(&f, 2),
        (false, "registered=true interactive_token=false".into())
    );
    f = healthy();
    f.selfheal_queried = true;
    assert_eq!(row(&f, 3), (true, "registered".into()));
    f = healthy();
    f.reachable = false;
    assert!(!row(&f, 4).0);
    f = healthy();
    f.current = Ok(vec![]);
    assert_eq!(
        row(&f, 5),
        (
            false,
            "STALE \u{2014} re-run apply (recorded 1, sshd now reports 0)".into()
        )
    );
    f = healthy();
    f.current = Err("denied".into());
    assert_eq!(row(&f, 5), (true, "recorded 1; could not re-check: denied".into()));
    f = healthy();
    f.probe = Err("no agent".into());
    assert_eq!(row(&f, 6), (false, "unavailable: no agent".into()));
    f = healthy();
    if let Ok((p, intact)) = &mut f.probe {
        p.session_id = 0;
        p.upstream = UpstreamState::Fail;
        *intact = false;
    }
    assert!(!row(&f, 6).0);
    assert_eq!(
        row(&f, 9),
        (false, "payload did not survive the relay byte for byte".into())
    );
    assert!(!row(&f, 10).0);
}

#[test]
fn probe_runs_the_installed_program() {
    assert_eq!(probe_command("C:\\a b.exe"), "\"C:\\a b.exe\" verify-probe");
    assert!(relay_failed(254) && relay_failed(255));
    assert!(!relay_failed(1) && !relay_failed(0));
}

#[test]
fn printed_declarations_are_read_in_order() {
    let declared = vec![
        Subsystem {
            name: "sftp".into(),
            command_line: "C:\\Program\\ Files\\sftp-server.exe -l INFO".into(),
        },
        Subsystem {
            name: "backup".into(),
            command_line: "internal-sftp".into(),
        },
    ];
    let printed = "subsystem sftp C:\\Program\\ Files\\sftp-server.exe -l INFO\nsubsystem backup internal-sftp\n";
    assert!(same_declarations(&parse_subsystems(printed), &declared));
    let reversed: Vec<Subsystem> = declared.iter().rev().cloned().collect();
    assert!(!same_declarations(&declared, &reversed));
}

#[test]
fn a_failed_task_command_says_what_was_run() {
    let args = vec!["/Run".to_string(), "/TN".to_string(), "a \"b\"".to_string()];
    assert_eq!(
        schtasks_error(&args, b"ERROR: no such task.\r\n"),
        "schtasks [\"/Run\", \"/TN\", \"a \\\"b\\\"\"] failed: ERROR: no such task."
    );
    assert_eq!(schtasks_error(&[], b""), "schtasks [] failed: ");
}

#[test]
fn probe_output_is_judged_before_it_is_decoded() {
    let end = probe_end(2, true, SymlinkState::Followed, true);
    assert_eq!(end.code, 0);
    let (report, intact) = probe_result(0, &end.stdout, b"").unwrap();
    assert_eq!(
        report,
        ProbeReport {
            session_id: 2,
            dpapi_ok: true,
            symlink: SymlinkState::Followed,
            upstream: UpstreamState::Intact,
        }
    );
    assert!(intact);
    // A probe that found no parity is still a report.
    let end = probe_end(0, false, SymlinkState::Blocked, false);
    assert_eq!(end.code, 1);
    let (report, intact) = probe_result(1, &end.stdout, b"").unwrap();
    assert_eq!(report.session_id, 0);
    assert_eq!(report.upstream, UpstreamState::Fail);
    assert!(intact);
    // A byte that did not survive is noticed, and the line is still read.
    let mut damaged = end.stdout.clone();
    let at = damaged.iter().position(|b| *b == 0x80).unwrap();
    damaged[at] = 0x81;
    assert!(!probe_result(1, &damaged, b"").unwrap().1);
}

#[test]
fn a_failed_relay_is_no_probe_report() {
    for code in [254, 255] {
        assert_eq!(
            probe_result(code, b"PROBE session_id=1", b" gone \xff\n").unwrap_err(),
            format!("probe relay failed (code {code}; stderr=gone \u{fffd})")
        );
    }
    assert_eq!(
        probe_result(0, b"nothing", b"").unwrap_err(),
        "no PROBE line in probe output"
    );
}

#[test]
fn the_task_file_is_decoded_to_its_text() {
    let xml = agent_task_xml("C:\\x\\ssh-broker.exe", "J\u{fc}rgen \u{1f600}");
    assert_eq!(decode_output(&xml_file_bytes(&xml)), xml);
    assert_eq!(decode_output(xml.as_bytes()), xml);
    assert_eq!(decode_output(&xml_file_bytes(&xml)[2..]), xml, "told by its zeros");
}

#[test]
fn declarations_are_read_from_utf16_output() {
    for skipped in [0, 2] {
        let run = SshdRun::Ran {
            success: true,
            stdout: xml_file_bytes(DUMP)[skipped..].to_vec(),
            stderr: Vec::new(),
        };
        let declared = sshd_declarations("sshd", &run).unwrap();
        assert!(same_declarations(&declared, &parse_subsystems(DUMP)));
    }
}
