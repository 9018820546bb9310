use sane::debug::run_debug;

/// Runs a scripted debugger session and returns what it showed.
fn run_debugger(_name: &str, program: &str, commands: &str) -> String {
    let mut output = Vec::new();
    run_debug(program, commands.as_bytes(), &mut output).unwrap();
    String::from_utf8(output).unwrap()
}

#[test]
fn sanei_debugger_supports_stepping_breakpoints_and_tape_inspection() {
    let stdout = run_debugger(
        "debug",
        "++>+<.",
        "s 2\npc\nb 5\nbreakpoints\nc\nx/2d 0\nx/xw 0\nq\n",
    );

    assert!(stdout.contains("sanei debug mode"));
    assert!(stdout.contains("pc=2 inst='>' ptr=0 cell[0]=2 state=paused"));
    assert!(stdout.contains("pc=2"));
    assert!(stdout.contains("breakpoint set at 5"));
    assert!(stdout.contains("breakpoint pc=5"));
    assert!(stdout.contains("0 2"));
    assert!(stdout.contains("1 1"));
    assert!(stdout.contains("0 0x00000102"));
}

#[test]
fn sanei_debugger_next_stops_before_matching_instruction() {
    let stdout = run_debugger("debug-next", "++>+<.", "next >\npc\ns\nnext .\ninst\nq\n");

    assert!(stdout.contains("next pc=2 inst='>'"));
    assert!(stdout.contains("pc=2"));
    assert!(stdout.contains("pc=3 inst='+' ptr=1 cell[1]=0 state=paused"));
    assert!(stdout.contains("next pc=5 inst='.'"));
    assert!(stdout.contains("inst pc=5 op='.'"));
}

#[test]
fn sanei_debugger_supports_info_watchpoints_and_set() {
    let stdout = run_debugger(
        "debug-watch",
        "++",
        "info\nwatch 0\nwatchpoints\nunwatch 0\nwatchpoints\nwatch 0\ns\nset 0 7\nx/d 0\nq\n",
    );

    assert!(stdout.contains("breakpoints=0 watchpoints=0"));
    assert!(stdout.contains("watchpoint cell=0 value=0"));
    assert!(stdout.contains("watchpoints deleted 1"));
    assert!(stdout.contains("no watchpoints"));
    assert!(stdout.contains("watchpoint cell=0 old=0 new=1"));
    assert!(stdout.contains("cell[0]=7"));
    assert!(stdout.contains("0 7"));
}

#[test]
fn sanei_debugger_repeats_last_command_on_empty_line() {
    let stdout = run_debugger("debug-repeat", "+++.", "s\n\npc\nx/d 0\nq\n");

    assert!(stdout.contains("pc=1 inst='+' ptr=0 cell[0]=1 state=paused"));
    assert!(stdout.contains("pc=2 inst='+' ptr=0 cell[0]=2 state=paused"));
    assert!(stdout.contains("pc=2"));
    assert!(stdout.contains("0 2"));
}

#[test]
fn sanei_debugger_restart_uses_gdb_style_r_command() {
    let stdout = run_debugger("debug-restart", "++", "s 2\nr\npc\nx/d 0\nq\n");

    assert!(stdout.contains("restarted"));
    assert!(stdout.contains("pc=0"));
    assert!(stdout.contains("0 0"));
}

#[test]
fn sanei_debugger_reads_sane_symbols() {
    let stdout = run_debugger(
        "debug-symbols",
        "SANE SYMBOLS\n\
         x CELL 8\n\
         arr ARRAY BASE 9 LEN 2 DATA CELLS 13 TO 14\n\
         END SANE SYMBOLS\n\
         +",
        "symbols\nsymbol arr\nset x 9\nset arr[1] 7\nx/d x\nx/2xb arr\nx/d arr[1]\nx/d arr+1\nx/d x\nq\n",
    );

    assert!(stdout.contains("x cell 8"));
    assert!(stdout.contains("arr array base 9 len 2 data 13 to 14"));
    assert!(stdout.contains("cell[8]=9"));
    assert!(stdout.contains("cell[14]=7"));
    assert!(stdout.contains("13 0x00"));
    assert!(stdout.contains("14 0x07"));
    assert!(stdout.contains("14 7"));
    assert!(stdout.contains("8 9"));
}

#[test]
fn sanei_debugger_watches_entire_array_symbol() {
    let stdout = run_debugger(
        "debug-array-watch",
        "SANE SYMBOLS\n\
         arr ARRAY BASE 9 LEN 2 DATA CELLS 0 TO 1\n\
         END SANE SYMBOLS\n\
         >+",
        "watch arr\nwatchpoints\nc\nq\n",
    );

    assert!(stdout.contains("watchpoint cell=0 value=0"));
    assert!(stdout.contains("watchpoint cell=1 value=0"));
    assert!(stdout.contains("watchpoint cell=1 old=0 new=1"));
}

#[test]
fn sanei_debugger_unwatches_entire_array_symbol() {
    let stdout = run_debugger(
        "debug-array-unwatch",
        "SANE SYMBOLS\n\
         arr ARRAY BASE 9 LEN 2 DATA CELLS 0 TO 1\n\
         END SANE SYMBOLS\n\
         >+",
        "watch arr\nunwatch arr\nwatchpoints\nc\nq\n",
    );

    assert!(stdout.contains("watchpoints deleted 2"));
    assert!(stdout.contains("no watchpoints"));
    assert!(!stdout.contains("old=0 new=1"));
}
