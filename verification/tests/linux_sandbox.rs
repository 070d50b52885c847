use catdesk::linux_sandbox::{
    module_name_of, nearest_dot_git_of, submodule_grant, AncestorGit,
    bubblewrap_args, executable_in_paths, file_name_of, gitdir_target, nvm_lib_path, parent_of,
    repo_link_ok,
    repo_project_ok, starts_with_path, submodule_key, worktree_paths, SandboxLayout,
    WorktreeFacts,
};

fn chars(s: &str) -> Vec<char> {
    s.chars().collect()
}

fn text(v: Option<Vec<char>>) -> Option<String> {
    v.map(|c| c.into_iter().collect())
}

fn layout() -> SandboxLayout {
    SandboxLayout {
        read_paths: vec!["/usr".to_string(), "/etc".to_string()],
        etc_ssh_is_dir: true,
        ssh_agent_socket: None,
        symlinks: vec![("usr/bin".to_string(), "/bin".to_string())],
        git_paths: Vec::new(),
        workspace: "/home/u/workspace".to_string(),
        cwd: "/home/u/workspace/src".to_string(),
        scratch: "/tmp/scratch".to_string(),
    }
}

#[test]
fn bubblewrap_arguments_chdir_to_cwd_and_use_a_new_session() {
    let args = bubblewrap_args(&layout(), "pwd");
    assert!(args.iter().any(|a| a == "--new-session"));
    let chdir = args.iter().position(|a| a == "--chdir").expect("--chdir");
    assert_eq!(args[chdir + 1], "/home/u/workspace/src");
    let ssh = args.iter().position(|a| a == "/etc/ssh").expect("/etc/ssh hidden");
    assert_eq!(args[ssh - 1], "--tmpfs");
    assert_eq!(&args[args.len() - 3..], &["/bin/bash", "-c", "pwd"]);
    assert_eq!(&args[12..15], &["--ro-bind-try", "/usr", "/usr"]);
    assert!(!args.iter().any(|a| a == "SSH_AUTH_SOCK"));
}

#[test]
fn an_agent_socket_is_bound_and_exported() {
    let mut l = layout();
    l.ssh_agent_socket = Some("/run/agent.sock".to_string());
    l.etc_ssh_is_dir = false;
    let args = bubblewrap_args(&l, "true");
    let env = args.iter().position(|a| a == "SSH_AUTH_SOCK").expect("agent exported");
    assert_eq!(args[env - 1], "--setenv");
    assert_eq!(args[env + 1], "/run/agent.sock");
    assert!(!args.iter().any(|a| a == "/etc/ssh"));
    assert_eq!(args.iter().filter(|a| *a == "/run/agent.sock").count(), 3);
}

#[test]
fn the_executable_is_the_first_one_outside_the_workspace() {
    let candidates = vec![
        None,
        Some("/home/u/workspace/bin/bwrap".to_string()),
        Some("/usr/bin/bwrap".to_string()),
        Some("/usr/local/bin/bwrap".to_string()),
    ];
    let workspace = Some("/home/u/workspace".to_string());
    assert_eq!(
        executable_in_paths(&candidates, &workspace).as_deref(),
        Some("/usr/bin/bwrap")
    );
    assert_eq!(
        executable_in_paths(&candidates[..2].to_vec(), &workspace),
        None
    );
    assert_eq!(
        executable_in_paths(&candidates, &None).as_deref(),
        Some("/home/u/workspace/bin/bwrap")
    );
    let sibling = vec![Some("/home/u/workspace2/bwrap".to_string())];
    assert!(executable_in_paths(&sibling, &workspace).is_some());
}

#[test]
fn canonical_paths_split_into_parent_and_name() {
    assert_eq!(text(parent_of(&chars("/a/b"))).as_deref(), Some("/a"));
    assert_eq!(text(parent_of(&chars("/a"))).as_deref(), Some("/"));
    assert_eq!(text(parent_of(&chars("/"))), None);
    assert_eq!(text(file_name_of(&chars("/a/.git"))).as_deref(), Some(".git"));
    assert!(starts_with_path(&chars("/a/b"), &chars("/a")));
    assert!(!starts_with_path(&chars("/a/bc"), &chars("/a/b")));
    assert!(starts_with_path(&chars("/x"), &chars("/")));
}

#[test]
fn a_gitdir_line_names_the_git_directory() {
    assert_eq!(
        gitdir_target("gitdir: ../../.git/modules/libfoo\n").as_deref(),
        Some("../../.git/modules/libfoo")
    );
    assert_eq!(gitdir_target("# note\ngitdir:/abs \n").as_deref(), Some("/abs"));
    assert_eq!(gitdir_target("nothing here\n"), None);
}

fn facts() -> WorktreeFacts {
    WorktreeFacts {
        dot_git: Some("/src/linked/.git".to_string()),
        backpointer: Some("/src/linked/.git".to_string()),
        has_commondir: true,
        common_from_raw: Some("/src/main/.git".to_string()),
        common: Some("/src/main/.git".to_string()),
        raw_common: Some("/src/main/.git".to_string()),
        ancestor_has_common: false,
        git_dir: "/src/main/.git/worktrees/linked".to_string(),
    }
}

#[test]
fn a_sibling_linked_worktree_is_granted_its_git_paths() {
    assert_eq!(
        worktree_paths(&facts()),
        vec![
            "/src/main/.git/worktrees/linked".to_string(),
            "/src/main/.git".to_string()
        ]
    );
}

#[test]
fn a_worktree_that_does_not_point_back_is_refused() {
    let mut f = facts();
    f.backpointer = Some("/elsewhere/.git".to_string());
    assert!(worktree_paths(&f).is_empty());

    let mut f = facts();
    f.common = Some("/canary/.git".to_string());
    f.common_from_raw = Some("/canary/.git".to_string());
    f.raw_common = Some("/canary/.git".to_string());
    f.git_dir = "/canary/.git/worktrees/x".to_string();
    assert!(worktree_paths(&f).is_empty());
    f.ancestor_has_common = true;
    assert_eq!(worktree_paths(&f).len(), 2);

    let mut f = facts();
    f.raw_common = Some("/src/evil/.git".to_string());
    assert!(worktree_paths(&f).is_empty());

    let mut f = facts();
    f.git_dir = "/src/main/.git/modules/x".to_string();
    assert!(worktree_paths(&f).is_empty());
}

#[test]
fn repo_links_must_stay_in_project_objects_under_their_own_name() {
    let objects = "/c/.repo/project-objects";
    assert!(repo_link_ok("objects", "/c/.repo/project-objects/p.git/objects", objects));
    assert!(!repo_link_ok("objects", "/canary/objects", objects));
    assert!(!repo_link_ok("config", "/c/.repo/project-objects/p.git/config", objects));
    assert!(!repo_link_ok("hooks", "/c/.repo/project-objects/p.git/objects", objects));
    assert!(repo_project_ok("/c/.repo/projects/a/b.git", "/c/.repo/projects/a/b.git", "/c/.repo/projects"));
    assert!(!repo_project_ok("/c/.repo/projects/a/b.git", "/other.git", "/c/.repo/projects"));
    assert_eq!(submodule_key("libfoo"), "submodule.libfoo.path");
}

#[test]
fn only_the_active_nvm_version_lib_is_readable() {
    let versions = "/home/u/.nvm/versions/node";
    let lib = Some("/home/u/.nvm/versions/node/v26.8.1/lib".to_string());
    assert_eq!(
        nvm_lib_path("/home/u/.nvm/versions/node/v26.8.1/bin", versions, &lib).as_deref(),
        Some("/home/u/.nvm/versions/node/v26.8.1/lib")
    );
    assert_eq!(nvm_lib_path("/home/u/.nvm/foo/bin", versions, &Some("/home/u/.nvm/foo/lib".to_string())), None);
    assert_eq!(nvm_lib_path("/outside/node/bin", versions, &Some("/outside/node/lib".to_string())), None);
    assert_eq!(
        nvm_lib_path("/home/u/.nvm/versions/node/v26.8.1/bin", versions, &Some("/outside/lib".to_string())),
        None
    );
    assert_eq!(nvm_lib_path("/home/u/.nvm/versions/node/v26.8.1/sbin", versions, &lib), None);
}

#[test]
fn the_nearest_dot_git_of_a_raw_git_dir_is_found() {
    assert_eq!(
        nearest_dot_git_of("/src/repo/../repo/.git/worktrees/feature").as_deref(),
        Some("/src/repo/../repo/.git")
    );
    assert_eq!(nearest_dot_git_of("/src/repo/.git").as_deref(), Some("/src/repo/.git"));
    assert_eq!(nearest_dot_git_of("/src/repo/gitdir/worktrees/x"), None);
    assert_eq!(nearest_dot_git_of("/"), None);
}

#[test]
fn a_submodule_is_named_by_where_it_sits_under_modules() {
    assert_eq!(module_name_of("/p/.git/modules/lib/a", "/p/.git").as_deref(), Some("lib/a"));
    assert_eq!(module_name_of("/p/.git/modules", "/p/.git").as_deref(), Some(""));
    assert_eq!(module_name_of("/p/.git/modulesx/a", "/p/.git"), None);
    assert_eq!(module_name_of("/q/.git/modules/a", "/p/.git"), None);
}

#[test]
fn a_submodule_is_granted_only_when_its_superproject_leads_back_here() {
    let workspace = "/p/lib";
    let git_dir = "/p/.git/modules/lib";
    let outside = AncestorGit { super_git: Some("/other/.git".to_string()), gitmodules_path: None };
    let by_gitmodules = AncestorGit {
        super_git: Some("/p/.git".to_string()),
        gitmodules_path: Some("/p/lib".to_string()),
    };
    let elsewhere = AncestorGit {
        super_git: Some("/p/.git".to_string()),
        gitmodules_path: Some("/p/other".to_string()),
    };
    let none = AncestorGit { super_git: None, gitmodules_path: None };

    assert_eq!(
        submodule_grant(workspace, git_dir, &None, &vec![none, by_gitmodules]).as_deref(),
        Some(git_dir)
    );
    let elsewhere2 = AncestorGit {
        super_git: elsewhere.super_git.clone(),
        gitmodules_path: elsewhere.gitmodules_path.clone(),
    };
    assert_eq!(submodule_grant(workspace, git_dir, &None, &vec![elsewhere]), None);
    assert_eq!(
        submodule_grant(workspace, git_dir, &Some("/p/lib".to_string()), &vec![elsewhere2])
            .as_deref(),
        Some(git_dir)
    );
    assert_eq!(
        submodule_grant(workspace, git_dir, &Some("/p/lib".to_string()), &vec![outside]),
        None
    );
    assert_eq!(submodule_grant(workspace, git_dir, &None, &Vec::new()), None);
}
