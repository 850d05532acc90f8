use painter_core::executor::{
    debug_executor, default_executor, execute_stages, fmt_memory, trace_stages, BackendCall,
    ExecutorError,
    LocatedOperation, NullBackend, Operation, OperationStage, RecordingBackend,
};

fn at(id: char, addr: usize) -> LocatedOperation {
    LocatedOperation { id: id as u64, addr }
}

fn op(id: char, depends_on: Vec<char>) -> Operation {
    Operation { id: id as u64, depends_on: depends_on.into_iter().map(|c| c as u64).collect() }
}

#[test]
fn test_executor_memory_overwrite_detect() {
    let a = op('A', vec![]);
    let stages = vec![OperationStage {
        operation: (a, 0),
        allocate_before: vec![at('A', 0), at('B', 0)],
        delete_after: vec![],
    }];
    assert_eq!(debug_executor(stages, 10), Err(ExecutorError::MemoryOverwrite));
}

#[test]
fn test_executor_reallocate_detect() {
    let a = op('A', vec![]);
    let stages = vec![OperationStage {
        operation: (a, 0),
        allocate_before: vec![at('A', 0), at('A', 1)],
        delete_after: vec![],
    }];
    assert_eq!(debug_executor(stages, 10), Err(ExecutorError::OperationReallocated));
}

#[test]
fn test_executor_dependency_unallocated_detect() {
    let a = op('A', vec!['B']);
    let stages = vec![OperationStage {
        operation: (a, 0),
        allocate_before: vec![at('A', 0)],
        delete_after: vec![],
    }];
    assert_eq!(debug_executor(stages, 10), Err(ExecutorError::DependencyNotAllocated));
}

#[test]
fn test_executor_dependency_not_executed_detect() {
    let a = op('A', vec!['B']);
    let stages = vec![OperationStage {
        operation: (a, 0),
        allocate_before: vec![at('A', 0), at('B', 1)],
        delete_after: vec![],
    }];
    assert_eq!(debug_executor(stages, 10), Err(ExecutorError::DependencyNotExecuted));
}

#[test]
fn test_executor_opertion_not_allocated_detect() {
    let a = op('A', vec![]);
    let stages = vec![OperationStage {
        operation: (a, 0),
        allocate_before: vec![],
        delete_after: vec![],
    }];
    assert_eq!(debug_executor(stages, 10), Err(ExecutorError::OperationNotAllocated));
}

#[test]
fn test_executor_opertion_run_twice_detect() {
    let a = op('A', vec![]);
    let stages = vec![
        OperationStage {
            operation: (a.clone(), 0),
            allocate_before: vec![at('A', 0)],
            delete_after: vec![],
        },
        OperationStage { operation: (a, 0), allocate_before: vec![], delete_after: vec![] },
    ];
    assert_eq!(debug_executor(stages, 10), Err(ExecutorError::OperationRunTwice));
}

#[test]
fn test_executor_freeing_empty_detect() {
    let a = op('A', vec![]);
    let stages = vec![OperationStage {
        operation: (a.clone(), 0),
        allocate_before: vec![at('A', 0)],
        delete_after: vec![at('A', 1)],
    }];
    assert_eq!(debug_executor(stages, 10), Err(ExecutorError::MemoryFreeingEmpty));
}

#[test]
fn test_executor_freeing_unallocated_detect() {
    let a = op('A', vec![]);
    let stages = vec![OperationStage {
        operation: (a.clone(), 0),
        allocate_before: vec![at('A', 0)],
        delete_after: vec![at('B', 0)],
    }];
    assert_eq!(debug_executor(stages, 10), Err(ExecutorError::MemoryFreeingUnallocated));
}

#[test]
fn test_executor_freeing_unexecuted_detect() {
    let a = op('A', vec![]);
    let stages = vec![OperationStage {
        operation: (a.clone(), 0),
        allocate_before: vec![at('A', 0), at('B', 1)],
        delete_after: vec![at('B', 1)],
    }];
    assert_eq!(debug_executor(stages, 10), Err(ExecutorError::MemoryFreeingUnexecuted));
}

#[test]
fn test_executor_mem_map_error1_detect() {
    let a = op('A', vec![]);
    let stages = vec![OperationStage {
        operation: (a.clone(), 0),
        allocate_before: vec![at('A', 1)],
        delete_after: vec![],
    }];
    assert_eq!(debug_executor(stages, 10), Err(ExecutorError::MemoryMapError));
}

#[test]
fn test_executor_memory_limit_allocate_detect() {
    let a = op('A', vec![]);
    let stages = vec![OperationStage {
        operation: (a.clone(), 0),
        allocate_before: vec![at('A', 0), at('B', 20)],
        delete_after: vec![],
    }];
    assert_eq!(debug_executor(stages, 10), Err(ExecutorError::MemoryHitResourceLimit));
}

#[test]
fn test_executor_memory_limit_operate_detect() {
    let a = op('A', vec![]);
    let stages = vec![OperationStage {
        operation: (a.clone(), 20),
        allocate_before: vec![at('A', 0)],
        delete_after: vec![],
    }];
    assert_eq!(debug_executor(stages, 10), Err(ExecutorError::MemoryHitResourceLimit));
}

#[test]
fn test_executor_memory_limit_delete_detect() {
    let a = op('A', vec![]);
    let stages = vec![OperationStage {
        operation: (a.clone(), 0),
        allocate_before: vec![at('A', 0)],
        delete_after: vec![at('A', 20)],
    }];
    assert_eq!(debug_executor(stages, 10), Err(ExecutorError::MemoryHitResourceLimit));
}

#[test]
fn test_executor_mem_map_error2_detect() {
    // Freeing 'B' at the register that holds 'A': the register and the
    // stage disagree about the occupant.
    let a = op('A', vec![]);
    let stages = vec![OperationStage {
        operation: (a.clone(), 0),
        allocate_before: vec![at('A', 0), at('B', 1)],
        delete_after: vec![at('B', 0)],
    }];
    assert_eq!(debug_executor(stages, 10), Err(ExecutorError::MemoryMapErrorInternal));
}

#[test]
fn executor_runs_a_hand_written_schedule() {
    let stages = vec![
        OperationStage {
            operation: (op('E', vec![]), 0),
            allocate_before: vec![at('E', 0)],
            delete_after: vec![],
        },
        OperationStage {
            operation: (op('F', vec!['E']), 3),
            allocate_before: vec![at('F', 3)],
            delete_after: vec![],
        },
        OperationStage {
            operation: (op('G', vec!['F']), 2),
            allocate_before: vec![at('G', 2)],
            delete_after: vec![],
        },
        OperationStage {
            operation: (op('D', vec!['E']), 1),
            allocate_before: vec![at('D', 1)],
            delete_after: vec![at('E', 0)],
        },
        OperationStage {
            operation: (op('C', vec!['D', 'F']), 0),
            allocate_before: vec![at('C', 0)],
            delete_after: vec![at('D', 1), at('F', 3)],
        },
        OperationStage {
            operation: (op('B', vec!['C']), 1),
            allocate_before: vec![at('B', 1)],
            delete_after: vec![at('C', 0)],
        },
        OperationStage {
            operation: (op('A', vec!['B', 'G']), 0),
            allocate_before: vec![at('A', 0)],
            delete_after: vec![at('B', 1), at('G', 2)],
        },
    ];
    let mut backend = NullBackend::new();
    assert_eq!(default_executor(stages, 10, &mut backend), Ok(()));
}

#[test]
fn consumed_dependency_is_not_live_after_the_stage() {
    // A composite (3) over two dependencies; the one underneath (1) is
    // released by the stage and may be consumed by the backend.
    let composite = Operation { id: 3, depends_on: vec![1, 2] };
    let stages = vec![
        OperationStage {
            operation: (Operation { id: 1, depends_on: vec![] }, 0),
            allocate_before: vec![LocatedOperation { id: 1, addr: 0 }],
            delete_after: vec![],
        },
        OperationStage {
            operation: (Operation { id: 2, depends_on: vec![] }, 1),
            allocate_before: vec![LocatedOperation { id: 2, addr: 1 }],
            delete_after: vec![],
        },
        OperationStage {
            operation: (composite, 2),
            allocate_before: vec![LocatedOperation { id: 3, addr: 2 }],
            delete_after: vec![LocatedOperation { id: 1, addr: 0 }],
        },
    ];
    let mut backend = RecordingBackend::new();
    let memory = execute_stages(&stages, 3, &mut backend).expect("valid stages");
    assert_eq!(memory[0], (None, false));
    assert_eq!(memory[1], (Some(2), true));
    assert_eq!(memory[2], (Some(3), true));
    assert_eq!(
        backend.log,
        vec![
            BackendCall::Load(LocatedOperation { id: 1, addr: 0 }),
            BackendCall::Compute(LocatedOperation { id: 1, addr: 0 }, vec![], vec![]),
            BackendCall::Load(LocatedOperation { id: 2, addr: 1 }),
            BackendCall::Compute(LocatedOperation { id: 2, addr: 1 }, vec![], vec![]),
            BackendCall::Load(LocatedOperation { id: 3, addr: 2 }),
            BackendCall::Compute(
                LocatedOperation { id: 3, addr: 2 },
                vec![LocatedOperation { id: 1, addr: 0 }, LocatedOperation { id: 2, addr: 1 }],
                vec![LocatedOperation { id: 1, addr: 0 }],
            ),
            BackendCall::Unload(LocatedOperation { id: 1, addr: 0 }),
        ]
    );
}

#[test]
fn no_compute_after_a_failed_allocation() {
    let stages = vec![OperationStage {
        operation: (op('A', vec![]), 0),
        allocate_before: vec![at('A', 0), at('B', 0)],
        delete_after: vec![],
    }];
    let mut backend = RecordingBackend::new();
    assert_eq!(
        default_executor(stages, 10, &mut backend),
        Err(ExecutorError::MemoryOverwrite)
    );
    assert_eq!(backend.log, vec![BackendCall::Load(at('A', 0))]);
}

#[test]
fn freed_dependency_is_no_longer_usable() {
    let stages = vec![
        OperationStage {
            operation: (op('A', vec![]), 0),
            allocate_before: vec![at('A', 0)],
            delete_after: vec![at('A', 0)],
        },
        OperationStage {
            operation: (op('B', vec!['A']), 1),
            allocate_before: vec![at('B', 1)],
            delete_after: vec![],
        },
    ];
    assert_eq!(debug_executor(stages, 2), Err(ExecutorError::MemoryMapErrorInternal));
}

#[test]
fn allocation_at_the_register_count_hits_the_limit() {
    let stages = vec![OperationStage {
        operation: (op('A', vec![]), 0),
        allocate_before: vec![at('A', 10)],
        delete_after: vec![],
    }];
    assert_eq!(debug_executor(stages, 10), Err(ExecutorError::MemoryHitResourceLimit));
}

#[test]
fn fmt_memory_text_is_exact() {
    let memory = vec![(Some(65), true), (None, false), (Some(7), false)];
    assert_eq!(fmt_memory(&memory), "| 65 \u{2611} |       | 7 \u{2610} |");
    assert_eq!(fmt_memory(&Vec::new()), "|");
}

#[test]
fn trace_shows_the_registers_after_each_phase() {
    let stages = vec![
        OperationStage {
            operation: (Operation { id: 1, depends_on: vec![] }, 1),
            allocate_before: vec![LocatedOperation { id: 1, addr: 1 }],
            delete_after: vec![],
        },
        OperationStage {
            operation: (Operation { id: 2, depends_on: vec![1] }, 0),
            allocate_before: vec![LocatedOperation { id: 2, addr: 0 }],
            delete_after: vec![LocatedOperation { id: 1, addr: 1 }],
        },
    ];
    let (verdict, lines) = trace_stages(&stages, 2);
    assert_eq!(verdict, Ok(()));
    assert_eq!(
        lines,
        vec![
            "|       |       |",
            "|       | 1 \u{2610} |",
            "|       | 1 \u{2611} |",
            "|       | 1 \u{2611} |",
            "| 2 \u{2610} | 1 \u{2611} |",
            "| 2 \u{2611} | 1 \u{2611} |",
            "| 2 \u{2611} |       |",
        ]
    );
}

#[test]
fn trace_ends_at_the_first_failure() {
    let stages = vec![
        OperationStage {
            operation: (Operation { id: 1, depends_on: vec![7] }, 0),
            allocate_before: vec![LocatedOperation { id: 1, addr: 0 }],
            delete_after: vec![],
        },
        OperationStage {
            operation: (Operation { id: 2, depends_on: vec![] }, 1),
            allocate_before: vec![LocatedOperation { id: 2, addr: 1 }],
            delete_after: vec![],
        },
    ];
    let (verdict, lines) = trace_stages(&stages, 2);
    assert_eq!(verdict, Err(ExecutorError::DependencyNotAllocated));
    assert_eq!(lines, vec!["|       |       |", "| 1 \u{2610} |       |"]);
    let (verdict, lines) = trace_stages(&stages, 0);
    assert_eq!(verdict, Err(ExecutorError::MemoryHitResourceLimit));
    assert_eq!(lines, vec!["|"]);
}
