use impaccable::pacman::{parse_required_by, parse_required_by_many, required_by_pairs,
    installed_from_output};
use impaccable::Error;

// these become hard to read as all caps, only used in tests
#[allow(non_upper_case_globals)]
const pacman_Qi_output_xorg: &str = r#"Name            : xorg-server
Version         : 21.1.8-2
Description     : Xorg X server
Architecture    : x86_64
URL             : https://xorg.freedesktop.org
Licenses        : custom
Groups          : xorg
Provides        : X-ABI-VIDEODRV_VERSION=25.2  X-ABI-XINPUT_VERSION=24.4  X-ABI-EXTENSION_VERSION=10.0  x-server
Depends On      : libepoxy  libxfont2  pixman  xorg-server-common  libunwind  dbus  libgl  xf86-input-libinput  nettle  libpciaccess  libdrm  libxshmfence
                    libxcvt
Optional Deps   : None
Required By     : lightdm  lightdm-slick-greeter
Optional For    : None
Conflicts With  : nvidia-utils<=331.20  glamor-egl  xf86-video-modesetting
Replaces        : glamor-egl  xf86-video-modesetting
Installed Size  : 3,73 MiB
Packager        : Laurent Carlier <lordheavym@archlinux.org>
Build Date      : Mo 10 Jul 2023 11:25:36 CEST
Install Date    : Mi 12 Jul 2023 17:24:40 CEST
Install Reason  : Explicitly installed
Install Script  : Yes
Validated By    : Signature
"#;

#[allow(non_upper_case_globals)]
const pacman_Qi_output_lightdm_slick: &str = r#"Name            : eos-lightdm-slick-theme
Version         : 3.2-1
Description     : EndeavourOS theme for lightdm-slick-greeter
Architecture    : any
URL             : https://www.endeavouros.com
Licenses        : GPL3
Groups          : None
Provides        : None
Depends On      : lightdm  lightdm-slick-greeter
Optional Deps   : eos-qogir-icons [installed]
                  arc-gtk-theme-eos [installed]
Required By     : None
Optional For    : None
Conflicts With  : None
Replaces        : None
Installed Size  : 382,00 B
Packager        : EndeavourOS <info@endeavouros.com>
Build Date      : Mi 21 Dez 2022 14:48:28 CET
Install Date    : Fr 03 Feb 2023 14:51:35 CET
Install Reason  : Explicitly installed
Install Script  : Yes
Validated By    : Signature
"#;

#[test]
fn test_parse_required_by() {
    {
        let parsed_dependants = parse_required_by(pacman_Qi_output_xorg).unwrap();
        let expected = vec!["lightdm", "lightdm-slick-greeter"];
        assert_eq!(expected, parsed_dependants)
    }
    {
        let parse_dependants = parse_required_by(pacman_Qi_output_lightdm_slick).unwrap();
        let expected: Vec<String> = Vec::new();
        assert_eq!(expected, parse_dependants)
    }
}

#[test]
fn parse_required_by_without_attribute_fails() {
    let err = parse_required_by("Version : 1.0\n").unwrap_err();
    assert_eq!(err, Error::UnexpectedPacmanOutput);
}

#[test]
fn parse_required_by_many_splits_chunks() {
    let mut output = String::new();
    output.push_str(pacman_Qi_output_xorg);
    output.push('\n');
    output.push_str(pacman_Qi_output_lightdm_slick);
    let parsed = parse_required_by_many(&output).unwrap();
    assert_eq!(
        parsed,
        vec![vec!["lightdm".to_string(), "lightdm-slick-greeter".to_string()], Vec::new()]
    );
}

#[test]
fn required_by_pairs_zips_in_order() {
    let mut output = String::new();
    output.push_str(pacman_Qi_output_xorg);
    output.push('\n');
    output.push_str(pacman_Qi_output_lightdm_slick);
    let packages = vec!["xorg-server".to_string(), "eos-lightdm-slick-theme".to_string()];
    let pairs = required_by_pairs(&packages, &output).unwrap();
    assert_eq!(pairs.len(), 2);
    assert_eq!(pairs[0].0, "xorg-server");
    assert_eq!(
        pairs[0].1,
        vec!["lightdm".to_string(), "lightdm-slick-greeter".to_string()]
    );
    assert_eq!(pairs[1].0, "eos-lightdm-slick-theme");
    assert!(pairs[1].1.is_empty());
}

#[test]
fn installed_from_output_collects_lines() {
    let out = installed_from_output("vim\ngit\nbash\n");
    assert_eq!(
        *out.as_vec(),
        vec!["bash".to_string(), "git".to_string(), "vim".to_string()]
    );
    let empty = installed_from_output("");
    assert!(empty.as_vec().is_empty());
}
