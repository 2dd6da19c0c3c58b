# skill_discovery

Finds prompt-template skills in markdown files: in the project, in the user's
directories, in configured paths and in git repositories. The first skill of a
name wins, in this order:

1. the project's `.claurst/skills` and `.agents/skills`, from the current
   directory upwards;
2. `skills` in the configuration directory, `~/.claurst`;
3. `~/.agents/skills`;
4. the configured paths;
5. the configured git repositories, cloned once and then cached.

`src/` is the library, verified with Verus. It does no input or output:
`scan`, `git` and `discovery` are machines that hand out a request and go on
with its reply. What they find is proved for every file system that changes by
nothing but what is done to it on their behalf: directories that are created
and repositories that are cloned. What holds of a file system that changes in
any other way is proved for every row of replies.

`app/` carries the requests out. Paths are Unix paths. The source path of a
skill is given below the directory of the process where it is relative.
