use findbar::{export_nix, SidebarItemInfo};

#[test]
fn test_export_nix() {
    let items = vec![
        SidebarItemInfo {
            id: 1,
            name: "Applications".to_string(),
            path: Some("/Applications".to_string()),
            url: Some("file:///Applications/".to_string()),
        },
        SidebarItemInfo {
            id: 2,
            name: "Downloads".to_string(),
            path: Some("/Users/test/Downloads".to_string()),
            url: Some("file:///Users/test/Downloads/".to_string()),
        },
    ];

    let nix_code = export_nix(&items, false, "");
    assert!(nix_code.contains("programs.findbar = {"));
    assert!(nix_code.contains("name = \"Applications\";"));
    assert!(nix_code.contains("path = \"/Applications\";"));
    assert!(nix_code.contains("name = \"Downloads\";"));
}

#[test]
fn export_writes_the_whole_configuration() {
    let items = vec![
        SidebarItemInfo { id: 1, name: "Downloads".to_string(), path: Some("/Users/test/Downloads".to_string()), url: None },
        SidebarItemInfo { id: 2, name: "Server".to_string(), path: None, url: Some("smb://x".to_string()) },
        SidebarItemInfo { id: 3, name: "Apps".to_string(), path: Some("/Applications".to_string()), url: None },
    ];
    let out = export_nix(&items, true, "/Users/test");
    let expected = "{\n  programs.findbar = {\n    enable = true;\n    keepUnmanaged = true;\n    items = [\n      {\n        name = \"Downloads\";\n        path = \"~/Downloads\";\n      }\n      {\n        name = \"Server\";\n        path = \"~\";\n      }\n      {\n        name = \"Apps\";\n        path = \"/Applications\";\n      }\n    ];\n  };\n}\n";
    assert_eq!(out, expected);
}

#[test]
fn export_of_an_empty_sidebar() {
    let out = export_nix(&[], false, "/Users/test");
    assert_eq!(out, "{\n  programs.findbar = {\n    enable = true;\n    items = [\n    ];\n  };\n}\n");
}

#[test]
fn only_paths_under_home_are_shortened() {
    let items = vec![
        SidebarItemInfo { id: 1, name: "T".to_string(), path: Some("/Users/test/Downloads".to_string()), url: None },
        SidebarItemInfo { id: 2, name: "H".to_string(), path: Some("/Users/te".to_string()), url: None },
        SidebarItemInfo { id: 3, name: "D".to_string(), path: Some("/Users/te/Docs".to_string()), url: None },
    ];
    let out = export_nix(&items, false, "/Users/te");
    assert!(out.contains("path = \"/Users/test/Downloads\";"));
    assert!(out.contains("path = \"~\";"));
    assert!(out.contains("path = \"~/Docs\";"));
}
