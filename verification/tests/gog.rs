use std::io::Write;

use inno::gog::plan;
use inno::gog::script::call_arguments;

#[test]
fn a_call_gives_up_its_arguments() {
    let arguments =
        call_arguments("before_install('5538b1', 'LOCO.EXE', 1)", "before_install").unwrap();
    assert_eq!(arguments, ["5538b1", "LOCO.EXE", "1"]);
}

#[test]
fn a_different_function_with_the_same_prefix_is_not_a_match() {
    // before_install_dependency starts with before_install, and matching
    // on the prefix would file every redistributable under the wrong
    // name.
    assert!(
        call_arguments(
            "before_install_dependency('14afcf', '__redist\\ISI\\x.exe', 1)",
            "before_install"
        )
        .is_none()
    );
}

#[test]
fn a_quote_inside_an_argument_survives() {
    let arguments = call_arguments(
        "before_install('id', 'Sawyer''s Loco.exe', 1)",
        "before_install",
    )
    .unwrap();
    assert_eq!(arguments[1], "Sawyer's Loco.exe");
}

#[test]
fn a_call_that_was_cut_off_is_not_half_read() {
    assert!(call_arguments("before_install('id', 'LOCO.EXE'", "before_install").is_none());
}

#[test]
fn a_single_part_file_is_one_entry() {
    let files = plan(&[(Some("before_install('id', 'LOCO.EXE', 1)"), None)]);
    assert_eq!(files.len(), 1);
    assert_eq!(files[0].path(), "LOCO.EXE");
    assert_eq!(files[0].parts(), [0]);
}

#[test]
fn the_entries_after_a_split_file_are_its_remaining_parts() {
    // Manual.pdf in Chris Sawyer's Locomotion is three parts, and only
    // the first says so.
    let files = plan(&[
        (Some("before_install('id', 'Manual.pdf', 3)"), None),
        (None, None),
        (None, None),
        (Some("before_install('id2', 'pskill.exe', 1)"), None),
    ]);

    assert_eq!(files.len(), 2);
    assert_eq!(files[0].path(), "Manual.pdf");
    assert_eq!(files[0].parts(), [0, 1, 2]);
    assert_eq!(files[1].path(), "pskill.exe");
    assert_eq!(files[1].parts(), [3]);
}

#[test]
fn a_backslash_path_becomes_a_normal_one() {
    let files = plan(&[(Some(r"before_install('id', 'Data\20s1.dat', 1)"), None)]);
    assert_eq!(files[0].path(), "Data/20s1.dat");
}

#[test]
fn entries_before_the_first_named_file_belong_to_nothing() {
    // The first entry of a real installer carries no script at all.
    let files = plan(&[
        (None, None),
        (None, None),
        (Some("before_install('id', 'a.txt', 1)"), None),
    ]);
    assert_eq!(files.len(), 1);
    assert_eq!(files[0].parts(), [2]);
}

#[test]
fn a_part_count_that_overruns_does_not_eat_the_next_file() {
    // A count larger than the parts actually present would otherwise
    // take the next file's first entry, losing that file and corrupting
    // this one. Both are wrong; only one of them is quiet.
    let files = plan(&[
        (Some("before_install('id', 'greedy.bin', 9)"), None),
        (None, None),
        (Some("before_install('id2', 'next.bin', 1)"), None),
    ]);

    assert_eq!(files.len(), 2);
    assert_eq!(files[0].parts(), [0, 1]);
    assert_eq!(files[1].path(), "next.bin");
    assert_eq!(files[1].parts(), [2]);
}

#[test]
fn a_part_count_of_zero_still_leaves_the_entry_it_names() {
    // Nothing in the format promises a sensible count, and a file with
    // no parts at all is not a file.
    let files = plan(&[
        (Some("before_install('id', 'odd.bin', 0)"), None),
        (None, None),
    ]);
    assert_eq!(files[0].parts(), [0]);
}

#[test]
fn the_checksum_of_the_finished_file_is_kept() {
    let files = plan(&[(
        Some("before_install('5538B198F731ABA14ABAF401DDDDF13F', 'LOCO.EXE', 1)"),
        None,
    )]);
    assert_eq!(
        files[0].checksum(),
        Some("5538b198f731aba14abaf401ddddf13f"),
        "written upper case by some installers and compared against a \
         lower-case digest"
    );
}

#[test]
fn a_part_round_trips_through_the_zlib_layer() {
    let original = b"LOCO.EXE would be here";
    let mut encoder =
        flate2::write::ZlibEncoder::new(Vec::new(), flate2::Compression::default());
    encoder.write_all(original).unwrap();
    let compressed = encoder.finish().unwrap();

    let file = &plan(&[(Some("before_install('id', 'x.bin', 1)"), None)])[0];
    assert_eq!(file.assemble(&[compressed]).unwrap(), original);
}

#[test]
fn a_part_that_is_not_a_zlib_stream_is_an_error_not_a_panic() {
    let file = &plan(&[(Some("before_install('id', 'x.bin', 1)"), None)])[0];
    assert!(file.assemble(&[b"not compressed at all".to_vec()]).is_err());
}

#[test]
fn an_entry_that_is_not_part_of_a_split_file_is_a_file_of_its_own() {
    // These sit among the split ones in a real installer, and are real
    // game data: Data/plugin.dat and the saved games in Locomotion.
    // Reading only the split files loses them without saying so.
    let files = plan(&[
        (Some("before_install('id', 'LOCO.EXE', 1)"), None),
        (None, Some(r"{app}\Data\plugin.dat")),
    ]);

    assert_eq!(files.len(), 2);
    assert_eq!(files[1].path(), "Data/plugin.dat");
    assert_eq!(files[1].parts(), [1]);
    assert_eq!(files[1].checksum(), None);
}

#[test]
fn a_plain_entry_is_not_decompressed_on_the_way_out() {
    // Only GOG's own parts carry the extra zlib layer. Inflating an
    // ordinary entry would fail on every one of them.
    let files = plan(&[(None, Some("{app}/readme.txt"))]);
    assert_eq!(
        files[0].assemble(&[b"plain bytes".to_vec()]).unwrap(),
        b"plain bytes"
    );
}

#[test]
fn an_entry_with_nowhere_to_go_is_not_a_file() {
    let files = plan(&[(None, None), (None, Some("{app}"))]);
    assert!(files.is_empty());
}

#[test]
fn assembling_the_wrong_number_of_parts_is_refused() {
    let files = plan(&[(Some("before_install('id', 'split.bin', 3)"), None)]);
    assert!(files[0].assemble(&[b"only one".to_vec()]).is_err());
}

#[test]
fn two_files_with_one_name_under_different_roots_stay_two_files() {
    // GOG installers ship their icon under both {app} and {tmp}. Keeping
    // only the path makes them one file, and whichever is written second
    // wins.
    let files = plan(&[
        (None, Some(r"{app}\goggame.ico")),
        (None, Some(r"{tmp}\goggame.ico")),
    ]);

    assert_eq!(files.len(), 2);
    assert_eq!(files[0].path(), files[1].path());
    assert_ne!(files[0].root(), files[1].root());
}

#[test]
fn a_split_file_is_written_under_app() {
    let files = plan(&[(Some("before_install('id', 'LOCO.EXE', 1)"), None)]);
    assert_eq!(files[0].root(), Some("app"));
}

#[test]
fn a_destination_with_no_constant_keeps_its_whole_path() {
    let files = plan(&[(None, Some(r"plain\path.txt"))]);
    assert_eq!(files[0].root(), None);
    assert_eq!(files[0].path(), "plain/path.txt");
}

#[test]
fn an_installer_that_is_not_gogs_is_read_as_plain_entries() {
    // Every entry carries its own destination and none is split, which
    // is what a plain Inno Setup installer looks like.
    let files = plan(&[
        (None, Some(r"{app}\a.txt")),
        (None, Some(r"{tmp}\dir\b.txt")),
    ]);
    assert_eq!(files.len(), 2);
    assert!(files.iter().all(|f| f.parts().len() == 1));
    assert_eq!(files[1].path(), "dir/b.txt");
    assert_eq!(files[1].root(), Some("tmp"));
}
