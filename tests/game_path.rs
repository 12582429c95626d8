use krevetka::game_path::get_stalcraft_map_path;

#[test]
fn map_path_is_below_runtime() {
    assert_eq!(
        get_stalcraft_map_path("C:\\Games\\EXBO"),
        "C:\\Games\\EXBO\\runtime\\stalcraft.map"
    );
}

#[test]
fn trailing_separator_is_not_doubled() {
    assert_eq!(get_stalcraft_map_path("D:\\EXBO\\"), "D:\\EXBO\\runtime\\stalcraft.map");
    assert_eq!(get_stalcraft_map_path("D:/EXBO/"), "D:/EXBO/runtime\\stalcraft.map");
}

#[test]
fn empty_root_gives_a_relative_path() {
    assert_eq!(get_stalcraft_map_path(""), "runtime\\stalcraft.map");
}

#[test]
fn non_ascii_root_is_kept() {
    assert_eq!(
        get_stalcraft_map_path("C:\\Игры"),
        "C:\\Игры\\runtime\\stalcraft.map"
    );
}

#[test]
fn bare_drive_root_gets_no_separator() {
    assert_eq!(get_stalcraft_map_path("C:"), "C:runtime\\stalcraft.map");
    assert_eq!(get_stalcraft_map_path("d:"), "d:runtime\\stalcraft.map");
}

#[test]
fn drive_root_with_separator_keeps_it() {
    assert_eq!(get_stalcraft_map_path("C:\\"), "C:\\runtime\\stalcraft.map");
}

#[test]
fn non_letter_before_colon_is_no_drive() {
    assert_eq!(get_stalcraft_map_path("1:"), "1:\\runtime\\stalcraft.map");
}
