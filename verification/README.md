# toast

A containerized build system: tasks declared in a toastfile run in Docker containers, one
after another in dependency order, and each finished task is committed to an image tagged
with a cryptographic cache key so that unchanged tasks are skipped on later runs.

## Layout

- `src/` is the verified library (Verus). It holds the model of toastfiles and their
  validation, the schedule (a deterministic topological sort), cache keys, the Docker
  commands and what their outcomes mean, the decisions of a run of one task (a state
  machine whose steps are proved to delete every container and to use the caches only as
  the settings allow), which paths go into the input archive and the hash of its contents,
  and the decisions of a session (settings, requested tasks, variables, the steps of a run
  of the schedule with the cache key each task starts from, the shell).
- `app/` is the program around it: the command line, the file system, the processes that
  run Docker, the tar archive, the spinner and the logger. It performs the actions that
  the library decides on.
- `tests/` runs the library on concrete values.
