//! Launcher-side decisions: the built-in launch options, the argument
//! list each option stands for, and filters over directory listings.
//! Spawning the game process, reading directories and showing the result
//! are the I/O layer's work; it passes plain values in and out.

use vstd::prelude::*;
use crate::text::{ends_with, ends_with_str, str_eq};

verus! {

/// One way to start the game, offered to the user.
pub struct LaunchOption {
    pub id: String,
    pub label: String,
    pub description: String,
}

/// One chart directory and which of its standard files exist.
pub struct ChartInfo {
    pub name: String,
    pub category: String,
    pub has_bg: bool,
    pub has_track: bool,
    pub has_maidata: bool,
    pub has_video: bool,
}

/// The built-in launch options, in menu order.  Every offered option id
/// is one that [`launch_args`] accepts.
pub fn get_launch_options() -> (r: Vec<LaunchOption>)
    ensures
        r@.len() == 7,
        r@[0].id@ == "default"@ && r@[1].id@ == "d3d11"@ && r@[2].id@ == "d3d12"@ && r@[3].id@
            == "opengl"@ && r@[4].id@ == "vulkan"@ && r@[5].id@ == "test"@ && r@[6].id@ == "edit"@,
        forall|i: int| 0 <= i < 7 ==> launch_args_spec((#[trigger] r@[i]).id@) is Some,
{
    let mut r: Vec<LaunchOption> = Vec::new();
    r.push(
        LaunchOption {
            id: String::from_str("default"),
            label: String::from_str("默认启动"),
            description: String::from_str("使用默认设置启动游戏"),
        },
    );
    r.push(
        LaunchOption {
            id: String::from_str("d3d11"),
            label: String::from_str("强制使用 D3D11"),
            description: String::from_str("强制使用 Direct3D 11 渲染"),
        },
    );
    r.push(
        LaunchOption {
            id: String::from_str("d3d12"),
            label: String::from_str("强制使用 D3D12"),
            description: String::from_str("强制使用 Direct3D 12 渲染"),
        },
    );
    r.push(
        LaunchOption {
            id: String::from_str("opengl"),
            label: String::from_str("强制使用 OpenGL"),
            description: String::from_str("强制使用 OpenGL Core 渲染"),
        },
    );
    r.push(
        LaunchOption {
            id: String::from_str("vulkan"),
            label: String::from_str("强制使用 Vulkan"),
            description: String::from_str("强制使用 Vulkan 渲染"),
        },
    );
    r.push(
        LaunchOption {
            id: String::from_str("test"),
            label: String::from_str("测试模式"),
            description: String::from_str("进入游戏测试模式"),
        },
    );
    r.push(
        LaunchOption {
            id: String::from_str("edit"),
            label: String::from_str("MajdataEdit"),
            description: String::from_str("打开谱面编辑器"),
        },
    );
    proof {
        assert forall|i: int| 0 <= i < 7 implies launch_args_spec(
            (#[trigger] r@[i]).id@,
        ) is Some by {
            if i == 0 {
                assert(r@[i].id@ == "default"@);
            } else if i == 1 {
                assert(r@[i].id@ == "d3d11"@);
            } else if i == 2 {
                assert(r@[i].id@ == "d3d12"@);
            } else if i == 3 {
                assert(r@[i].id@ == "opengl"@);
            } else if i == 4 {
                assert(r@[i].id@ == "vulkan"@);
            } else if i == 5 {
                assert(r@[i].id@ == "test"@);
            } else {
                assert(r@[i].id@ == "edit"@);
            }
        }
    }
    r
}

/// The command-line arguments each launch option stands for, or nothing
/// for an unknown option id.
pub open spec fn launch_args_spec(id: Seq<char>) -> Option<Seq<Seq<char>>> {
    if id == "default"@ {
        Some(Seq::empty())
    } else if id == "d3d11"@ {
        Some(seq!["-force-d3d11"@])
    } else if id == "d3d12"@ {
        Some(seq!["-force-d3d12"@])
    } else if id == "opengl"@ {
        Some(seq!["-force-glcore"@])
    } else if id == "vulkan"@ {
        Some(seq!["-force-vulkan"@])
    } else if id == "test"@ {
        Some(seq!["--test-mode"@])
    } else if id == "edit"@ {
        Some(seq!["--view-mode"@])
    } else {
        None
    }
}

/// The argument list for a launch option id; an unknown id is rejected
/// with a message naming it.
pub fn launch_args(option_id: &str) -> (r: Result<Vec<String>, String>)
    ensures
        match r {
            Ok(args) => launch_args_spec(option_id@) == Some(args.deep_view()),
            Err(e) => launch_args_spec(option_id@) is None && e@ == "未知的启动选项: "@
                + option_id@,
        },
{
    let mut args: Vec<String> = Vec::new();
    if str_eq(option_id, "default") {
        proof {
            assert(args.deep_view() =~= Seq::<Seq<char>>::empty());
        }
        return Ok(args);
    }
    if str_eq(option_id, "d3d11") {
        args.push(String::from_str("-force-d3d11"));
        proof {
            assert(args.deep_view() =~= seq!["-force-d3d11"@]);
        }
        return Ok(args);
    }
    if str_eq(option_id, "d3d12") {
        args.push(String::from_str("-force-d3d12"));
        proof {
            assert(args.deep_view() =~= seq!["-force-d3d12"@]);
        }
        return Ok(args);
    }
    if str_eq(option_id, "opengl") {
        args.push(String::from_str("-force-glcore"));
        proof {
            assert(args.deep_view() =~= seq!["-force-glcore"@]);
        }
        return Ok(args);
    }
    if str_eq(option_id, "vulkan") {
        args.push(String::from_str("-force-vulkan"));
        proof {
            assert(args.deep_view() =~= seq!["-force-vulkan"@]);
        }
        return Ok(args);
    }
    if str_eq(option_id, "test") {
        args.push(String::from_str("--test-mode"));
        proof {
            assert(args.deep_view() =~= seq!["--test-mode"@]);
        }
        return Ok(args);
    }
    if str_eq(option_id, "edit") {
        args.push(String::from_str("--view-mode"));
        proof {
            assert(args.deep_view() =~= seq!["--view-mode"@]);
        }
        return Ok(args);
    }
    let mut e = String::from_str("未知的启动选项: ");
    e.append(option_id);
    Err(e)
}

/// A friendly greeting for the given name.
pub fn greet(name: &str) -> (r: String)
    ensures
        r@ == "Hello, "@ + name@ + "! You've been greeted from Rust!"@,
{
    let mut r = String::from_str("Hello, ");
    r.append(name);
    r.append("! You've been greeted from Rust!");
    r
}

/// The names that end in `.bat`, in input order.
pub open spec fn bat_files_of(names: Seq<Seq<char>>) -> Seq<Seq<char>>
    decreases names.len(),
{
    if names.len() == 0 {
        Seq::empty()
    } else {
        let rest = bat_files_of(names.drop_last());
        if ends_with(names.last(), ".bat"@) {
            rest.push(names.last())
        } else {
            rest
        }
    }
}

/// Filters a directory listing down to the `.bat` entries, keeping their
/// order.
pub fn filter_bat_files(names: &Vec<String>) -> (r: Vec<String>)
    ensures
        r.deep_view() == bat_files_of(names.deep_view()),
{
    let ghost nm = names.deep_view();
    let n = names.len();
    let mut r: Vec<String> = Vec::new();
    let mut i: usize = 0;
    while i < n
        invariant
            n == nm.len(),
            nm == names.deep_view(),
            i <= n,
            r.deep_view() == bat_files_of(nm.subrange(0, i as int)),
        decreases n - i,
    {
        let ghost prev = r.deep_view();
        if ends_with_str(names[i].as_str(), ".bat") {
            r.push(names[i].clone());
        }
        proof {
            assert(nm.subrange(0, i + 1).drop_last() =~= nm.subrange(0, i as int));
            assert(nm.subrange(0, i + 1).last() == nm[i as int]);
            if ends_with(nm[i as int], ".bat"@) {
                assert(r.deep_view() =~= prev.push(nm[i as int]));
            }
        }
        i = i + 1;
    }
    proof {
        assert(nm.subrange(0, n as int) =~= nm);
    }
    r
}

} // verus!
